//! Assembly of a whole document from channel and operation declarations.
use crate::laws::{lemma_assembled_references_resolve, lemma_assembled_schemas_resolve};
use crate::model::{
    channel_entries, channels_prefix, component_messages, component_schemas, operation_entries,
    schema_refs_resolve, schemas_prefix, AsyncApiSpec, Channel, ChannelRef, Components, Info,
    Message, MessageRef, Operation, OperationAction, Schema, Server,
};
use crate::registry::{
    base_slot, candidate_slot, count_of, free_slot, message_of, message_path, slot_taken,
    AssemblyError, ComponentRegistry, MessageDescriptor, RegistryPhase,
};
use vstd::prelude::*;
use vstd::string::*;

verus! {

/// A channel to declare, with the messages that travel on it.
#[derive(Debug)]
pub struct ChannelSpec {
    pub name: String,
    pub address: Option<String>,
    pub messages: Vec<MessageDescriptor>,
}

/// An operation to declare, on the channel named `channel_name`.
#[derive(Debug)]
pub struct OperationSpec {
    pub name: String,
    pub action: OperationAction,
    pub channel_name: String,
    pub messages: Vec<MessageDescriptor>,
}

pub open spec fn keys_of(ds: Seq<MessageDescriptor>) -> Seq<u64> {
    ds.map_values(|d: MessageDescriptor| d.identity_key)
}

pub open spec fn channel_keys(cs: Seq<ChannelSpec>) -> Seq<u64>
    decreases cs.len(),
{
    if cs.len() == 0 {
        Seq::empty()
    } else {
        channel_keys(cs.drop_last()) + keys_of(cs.last().messages@)
    }
}

pub open spec fn operation_keys(os: Seq<OperationSpec>) -> Seq<u64>
    decreases os.len(),
{
    if os.len() == 0 {
        Seq::empty()
    } else {
        operation_keys(os.drop_last()) + keys_of(os.last().messages@)
    }
}

pub open spec fn channel_occurrences(cs: Seq<ChannelSpec>) -> Seq<MessageDescriptor>
    decreases cs.len(),
{
    if cs.len() == 0 {
        Seq::empty()
    } else {
        channel_occurrences(cs.drop_last()) + cs.last().messages@
    }
}

pub open spec fn operation_occurrences(os: Seq<OperationSpec>) -> Seq<MessageDescriptor>
    decreases os.len(),
{
    if os.len() == 0 {
        Seq::empty()
    } else {
        operation_occurrences(os.drop_last()) + os.last().messages@
    }
}

/// Every descriptor occurrence in interning order: channels first, then operations.
pub open spec fn occurrences(cs: Seq<ChannelSpec>, os: Seq<OperationSpec>) -> Seq<MessageDescriptor> {
    channel_occurrences(cs) + operation_occurrences(os)
}

/// Identity keys of every descriptor occurrence: channels first, then operations.
pub open spec fn all_keys(cs: Seq<ChannelSpec>, os: Seq<OperationSpec>) -> Seq<u64> {
    channel_keys(cs) + operation_keys(os)
}

pub open spec fn declares_channel(cs: Seq<ChannelSpec>, name: Seq<char>) -> bool {
    exists|c: int| 0 <= c < cs.len() && (#[trigger] cs[c]).name@ == name
}

/// Some operation names a channel that is not declared.
pub open spec fn has_unknown_channel(cs: Seq<ChannelSpec>, os: Seq<OperationSpec>) -> bool {
    exists|o: int| 0 <= o < os.len() && !declares_channel(cs, (#[trigger] os[o]).channel_name@)
}

proof fn lemma_keys_step(ds: Seq<MessageDescriptor>, j: int)
    requires
        0 <= j < ds.len(),
    ensures
        keys_of(ds.take(j + 1)) == keys_of(ds.take(j)).push(ds[j].identity_key),
{
    assert(keys_of(ds.take(j + 1)) =~= keys_of(ds.take(j)).push(ds[j].identity_key));
}

fn tally_all(reg: &mut ComponentRegistry, cs: &Vec<ChannelSpec>, os: &Vec<OperationSpec>)
    requires
        old(reg).wf(),
        old(reg).phase() == RegistryPhase::Tallying,
        old(reg).tallied() == Seq::<u64>::empty(),
        old(reg).keys() == Seq::<u64>::empty(),
    ensures
        final(reg).wf(),
        final(reg).phase() == RegistryPhase::Tallying,
        final(reg).tallied() == all_keys(cs@, os@),
        final(reg).keys() == Seq::<u64>::empty(),
        final(reg).entries() == old(reg).entries(),
{
    let ghost e0 = reg.entries();
    let mut i: usize = 0;
    while i < cs.len()
        invariant
            0 <= i <= cs@.len(),
            reg.wf(),
            reg.phase() == RegistryPhase::Tallying,
            reg.keys() == Seq::<u64>::empty(),
            reg.entries() == e0,
            reg.tallied() == channel_keys(cs@.take(i as int)),
        decreases cs@.len() - i,
    {
        let ms = &cs[i].messages;
        let mut j: usize = 0;
        while j < ms.len()
            invariant
                0 <= j <= ms@.len(),
                0 <= i < cs@.len(),
                ms == cs@[i as int].messages,
                reg.wf(),
                reg.phase() == RegistryPhase::Tallying,
                reg.keys() == Seq::<u64>::empty(),
                reg.entries() == e0,
                reg.tallied() == channel_keys(cs@.take(i as int)) + keys_of(ms@.take(j as int)),
            decreases ms@.len() - j,
        {
            proof {
                lemma_keys_step(ms@, j as int);
            }
            let _ = reg.tally(ms[j].identity_key);
            assert(reg.tallied() =~= channel_keys(cs@.take(i as int)) + keys_of(ms@.take(j + 1)));
            j += 1;
        }
        assert(cs@.take(i + 1).drop_last() == cs@.take(i as int));
        assert(ms@.take(ms@.len() as int) == ms@);
        i += 1;
    }
    assert(cs@.take(cs@.len() as int) == cs@);
    assert(reg.tallied() =~= channel_keys(cs@) + operation_keys(os@.take(0)));
    let mut i: usize = 0;
    while i < os.len()
        invariant
            0 <= i <= os@.len(),
            reg.wf(),
            reg.phase() == RegistryPhase::Tallying,
            reg.keys() == Seq::<u64>::empty(),
            reg.entries() == e0,
            reg.tallied() == channel_keys(cs@) + operation_keys(os@.take(i as int)),
        decreases os@.len() - i,
    {
        let ms = &os[i].messages;
        let mut j: usize = 0;
        while j < ms.len()
            invariant
                0 <= j <= ms@.len(),
                0 <= i < os@.len(),
                ms == os@[i as int].messages,
                reg.wf(),
                reg.phase() == RegistryPhase::Tallying,
                reg.keys() == Seq::<u64>::empty(),
                reg.entries() == e0,
                reg.tallied() == channel_keys(cs@) + operation_keys(os@.take(i as int)) + keys_of(
                    ms@.take(j as int),
                ),
            decreases ms@.len() - j,
        {
            proof {
                lemma_keys_step(ms@, j as int);
            }
            let _ = reg.tally(ms[j].identity_key);
            assert(reg.tallied() =~= channel_keys(cs@) + operation_keys(os@.take(i as int))
                + keys_of(ms@.take(j + 1)));
            j += 1;
        }
        assert(os@.take(i + 1).drop_last() == os@.take(i as int));
        assert(ms@.take(ms@.len() as int) == ms@);
        assert(reg.tallied() =~= channel_keys(cs@) + operation_keys(os@.take(i + 1)));
        i += 1;
    }
    assert(os@.take(os@.len() as int) == os@);
}

/// The first operation whose channel is not declared, if any.
fn find_unknown_channel(cs: &Vec<ChannelSpec>, os: &Vec<OperationSpec>) -> (r: Option<usize>)
    ensures
        match r {
            Some(o) => o < os@.len() && !declares_channel(cs@, os@[o as int].channel_name@)
                && forall|p: int| 0 <= p < o ==> declares_channel(cs@, (#[trigger] os@[p]).channel_name@),
            None => !has_unknown_channel(cs@, os@),
        },
{
    let mut o: usize = 0;
    while o < os.len()
        invariant
            0 <= o <= os@.len(),
            forall|p: int| 0 <= p < o ==> declares_channel(cs@, (#[trigger] os@[p]).channel_name@),
        decreases os@.len() - o,
    {
        let mut found = false;
        let mut c: usize = 0;
        while c < cs.len()
            invariant
                0 <= c <= cs@.len(),
                0 <= o < os@.len(),
                found ==> declares_channel(cs@, os@[o as int].channel_name@),
                !found ==> forall|q: int| 0 <= q < c ==> (#[trigger] cs@[q]).name@ != os@[o as int].channel_name@,
            decreases cs@.len() - c,
        {
            if cs[c].name == os[o].channel_name {
                found = true;
            }
            c += 1;
        }
        if !found {
            return Some(o);
        }
        o += 1;
    }
    None
}

/// How one descriptor occurrence must appear, given the tally `t`, the stored
/// keys `ks` and the component entries `cm`: inline when its key was counted
/// fewer than twice, otherwise the reference to the entry stored for its key.
pub open spec fn occurrence_ok(
    d: MessageDescriptor,
    r: MessageRef,
    t: Seq<u64>,
    ks: Seq<u64>,
    cm: Seq<(String, Message)>,
) -> bool {
    if count_of(t, d.identity_key) < 2 {
        r matches MessageRef::Inline(m) && *m == message_of(d)
    } else {
        exists|e: int|
            0 <= e < ks.len() && e < cm.len() && #[trigger] ks[e] == d.identity_key && (r matches MessageRef::Reference { reference } && reference@ == message_path(cm[e].0@))
    }
}

/// `ks2` / `cm2` extend `ks` / `cm`.
pub open spec fn extends(ks: Seq<u64>, cm: Seq<(String, Message)>, ks2: Seq<u64>, cm2: Seq<(String, Message)>) -> bool {
    &&& ks.len() <= ks2.len()
    &&& cm.len() <= cm2.len()
    &&& forall|i: int| 0 <= i < ks.len() ==> ks2[i] == ks[i]
    &&& forall|i: int| 0 <= i < cm.len() ==> cm2[i] == cm[i]
}

proof fn lemma_occurrence_stable(
    d: MessageDescriptor,
    r: MessageRef,
    t: Seq<u64>,
    ks: Seq<u64>,
    cm: Seq<(String, Message)>,
    ks2: Seq<u64>,
    cm2: Seq<(String, Message)>,
)
    requires
        occurrence_ok(d, r, t, ks, cm),
        extends(ks, cm, ks2, cm2),
    ensures
        occurrence_ok(d, r, t, ks2, cm2),
{
    if count_of(t, d.identity_key) >= 2 {
        let e = choose|e: int|
            0 <= e < ks.len() && e < cm.len() && #[trigger] ks[e] == d.identity_key && (r matches MessageRef::Reference { reference } && reference@ == message_path(cm[e].0@));
        assert(ks2[e] == ks[e]);
        assert(cm2[e] == cm[e]);
    }
}

/// The channel entry built from a channel declaration.
pub open spec fn channel_ok(
    c: ChannelSpec,
    out: (String, Channel),
    t: Seq<u64>,
    ks: Seq<u64>,
    cm: Seq<(String, Message)>,
) -> bool {
    &&& out.0 == c.name
    &&& out.1.address == c.address
    &&& match out.1.messages {
        None => c.messages@.len() == 0,
        Some(v) => c.messages@.len() > 0 && v@.len() == c.messages@.len() && forall|j: int|
            0 <= j < v@.len() ==> (#[trigger] v@[j]).0@ == c.messages@[j].name@ && occurrence_ok(
                c.messages@[j],
                v@[j].1,
                t,
                ks,
                cm,
            ),
    }
}

/// The operation entry built from an operation declaration.
pub open spec fn operation_ok(
    o: OperationSpec,
    out: (String, Operation),
    t: Seq<u64>,
    ks: Seq<u64>,
    cm: Seq<(String, Message)>,
) -> bool {
    &&& out.0 == o.name
    &&& out.1.action == o.action
    &&& out.1.channel.reference@ == channels_prefix() + o.channel_name@
    &&& match out.1.messages {
        None => o.messages@.len() == 0,
        Some(v) => o.messages@.len() > 0 && v@.len() == o.messages@.len() && forall|j: int|
            0 <= j < v@.len() ==> occurrence_ok(o.messages@[j], #[trigger] v@[j], t, ks, cm),
    }
}

/// A stored entry under key `k` holds the message of descriptor `d`, under
/// one of the candidate slot names of `d`.
pub open spec fn entry_from(d: MessageDescriptor, k: u64, entry: (String, Message)) -> bool {
    &&& d.identity_key == k
    &&& entry.1 == message_of(d)
    &&& exists|n: int| 0 <= n < 4 && entry.0@ == candidate_slot(base_slot(d), n)
}

/// Entry `entry` under key `k` comes from one of the descriptors `ds`.
pub open spec fn comes_from(ds: Seq<MessageDescriptor>, k: u64, entry: (String, Message)) -> bool {
    exists|j: int| 0 <= j < ds.len() && #[trigger] entry_from(ds[j], k, entry)
}

/// Entry `entry` under key `k` comes from a descriptor of a channel or an operation.
pub open spec fn from_declarations(
    cs: Seq<ChannelSpec>,
    os: Seq<OperationSpec>,
    k: u64,
    entry: (String, Message),
) -> bool {
    (exists|i: int| 0 <= i < cs.len() && #[trigger] comes_from(cs[i].messages@, k, entry)) || (
    exists|i: int| 0 <= i < os.len() && #[trigger] comes_from(os[i].messages@, k, entry))
}

/// `d` is one of the descriptors declared on a channel or an operation.
pub open spec fn occurs(cs: Seq<ChannelSpec>, os: Seq<OperationSpec>, d: MessageDescriptor) -> bool {
    (exists|i: int, j: int|
        0 <= i < cs.len() && 0 <= j < cs[i].messages@.len() && #[trigger] cs[i].messages@[j] == d)
        || (exists|i: int, j: int|
        0 <= i < os.len() && 0 <= j < os[i].messages@.len() && #[trigger] os[i].messages@[j] == d)
}

/// Descriptors of distinct identity keys that each occur at least twice ask
/// for distinct base slot names.
pub open spec fn distinct_bases(cs: Seq<ChannelSpec>, os: Seq<OperationSpec>) -> bool {
    let t = all_keys(cs, os);
    forall|d1: MessageDescriptor, d2: MessageDescriptor|
        #[trigger] occurs(cs, os, d1) && #[trigger] occurs(cs, os, d2) && d1.identity_key
            != d2.identity_key && count_of(t, d1.identity_key) >= 2 && count_of(t, d2.identity_key)
            >= 2 ==> base_slot(d1) != base_slot(d2)
}

/// Entry `entry` under key `k` is stored under the base slot name of a declared descriptor of that key.
pub open spec fn based(cs: Seq<ChannelSpec>, os: Seq<OperationSpec>, k: u64, entry: (String, Message)) -> bool {
    exists|d: MessageDescriptor| #[trigger] occurs(cs, os, d) && d.identity_key == k && entry.0@ == base_slot(d)
}

proof fn lemma_free_slot_is_candidate(entries: Seq<(String, Message)>, base: Seq<char>)
    ensures
        free_slot(entries, base) matches Some(s) ==> exists|n: int|
            0 <= n < 4 && s == candidate_slot(base, n),
{
    if !slot_taken(entries, candidate_slot(base, 0)) {
        assert(candidate_slot(base, 0) == candidate_slot(base, 0));
    } else if !slot_taken(entries, candidate_slot(base, 1)) {
        assert(candidate_slot(base, 1) == candidate_slot(base, 1));
    } else if !slot_taken(entries, candidate_slot(base, 2)) {
        assert(candidate_slot(base, 2) == candidate_slot(base, 2));
    } else if !slot_taken(entries, candidate_slot(base, 3)) {
        assert(candidate_slot(base, 3) == candidate_slot(base, 3));
    }
}

/// Whether slot name `s` is used by an entry of the model `st` (key, slot name, message).
pub open spec fn slot_used(st: Seq<(u64, Seq<char>, Message)>, s: Seq<char>) -> bool {
    exists|j: int| 0 <= j < st.len() && (#[trigger] st[j]).1 == s
}

/// The first candidate slot for `base` that `st` does not use, if any.
pub open spec fn first_free(st: Seq<(u64, Seq<char>, Message)>, base: Seq<char>) -> Option<Seq<char>> {
    if !slot_used(st, candidate_slot(base, 0)) {
        Some(candidate_slot(base, 0))
    } else if !slot_used(st, candidate_slot(base, 1)) {
        Some(candidate_slot(base, 1))
    } else if !slot_used(st, candidate_slot(base, 2)) {
        Some(candidate_slot(base, 2))
    } else if !slot_used(st, candidate_slot(base, 3)) {
        Some(candidate_slot(base, 3))
    } else {
        None
    }
}

pub open spec fn key_stored(st: Seq<(u64, Seq<char>, Message)>, k: u64) -> bool {
    exists|j: int| 0 <= j < st.len() && (#[trigger] st[j]).0 == k
}

/// The entries stored after interning the descriptors `ds` in order, with tally `t`:
/// the first occurrence of each key counted at least twice adds its message
/// under the first free candidate slot of its base name.
pub open spec fn stored_after(ds: Seq<MessageDescriptor>, t: Seq<u64>) -> Seq<(u64, Seq<char>, Message)>
    decreases ds.len(),
{
    if ds.len() == 0 {
        Seq::empty()
    } else {
        let st = stored_after(ds.drop_last(), t);
        let d = ds.last();
        if count_of(t, d.identity_key) < 2 || key_stored(st, d.identity_key) {
            st
        } else {
            match first_free(st, base_slot(d)) {
                Some(slot) => st.push((d.identity_key, slot, message_of(d))),
                None => st,
            }
        }
    }
}

/// Interning the descriptors `ds` in order, with tally `t`, finds no free
/// slot name for some occurrence.
pub open spec fn runs_out_of_slots(ds: Seq<MessageDescriptor>, t: Seq<u64>) -> bool
    decreases ds.len(),
{
    if ds.len() == 0 {
        false
    } else {
        let st = stored_after(ds.drop_last(), t);
        let d = ds.last();
        runs_out_of_slots(ds.drop_last(), t) || (count_of(t, d.identity_key) >= 2 && !key_stored(
            st,
            d.identity_key,
        ) && first_free(st, base_slot(d)) is None)
    }
}

proof fn lemma_runs_out_prefix(a: Seq<MessageDescriptor>, c: Seq<MessageDescriptor>, t: Seq<u64>)
    requires
        runs_out_of_slots(a, t),
        a.len() <= c.len(),
        c.take(a.len() as int) == a,
    ensures
        runs_out_of_slots(c, t),
    decreases c.len(),
{
    if c.len() == a.len() {
        assert(c.take(a.len() as int) =~= c);
    } else {
        assert(c.drop_last().take(a.len() as int) =~= c.take(a.len() as int));
        lemma_runs_out_prefix(a, c.drop_last(), t);
    }
}

proof fn lemma_channel_occurrences_prefix(cs: Seq<ChannelSpec>, i: int, j: int)
    requires
        0 <= i <= j <= cs.len(),
    ensures
        channel_occurrences(cs.take(i)).len() <= channel_occurrences(cs.take(j)).len(),
        channel_occurrences(cs.take(j)).take(channel_occurrences(cs.take(i)).len() as int)
            == channel_occurrences(cs.take(i)),
    decreases j - i,
{
    if i == j {
        assert(channel_occurrences(cs.take(j)).take(channel_occurrences(cs.take(i)).len() as int)
            =~= channel_occurrences(cs.take(i)));
    } else {
        lemma_channel_occurrences_prefix(cs, i, j - 1);
        assert(cs.take(j).drop_last() =~= cs.take(j - 1));
        assert(channel_occurrences(cs.take(j)).take(channel_occurrences(cs.take(i)).len() as int)
            =~= channel_occurrences(cs.take(j - 1)).take(channel_occurrences(cs.take(i)).len() as int));
    }
}

proof fn lemma_operation_occurrences_prefix(pre: Seq<MessageDescriptor>, os: Seq<OperationSpec>, i: int, j: int)
    requires
        0 <= i <= j <= os.len(),
    ensures
        (pre + operation_occurrences(os.take(i))).len() <= (pre + operation_occurrences(os.take(j))).len(),
        (pre + operation_occurrences(os.take(j))).take((pre + operation_occurrences(os.take(i))).len() as int)
            == pre + operation_occurrences(os.take(i)),
    decreases j - i,
{
    if i == j {
        assert((pre + operation_occurrences(os.take(j))).take((pre + operation_occurrences(os.take(i))).len() as int)
            =~= pre + operation_occurrences(os.take(i)));
    } else {
        lemma_operation_occurrences_prefix(pre, os, i, j - 1);
        assert(os.take(j).drop_last() =~= os.take(j - 1));
        assert((pre + operation_occurrences(os.take(j))).take((pre + operation_occurrences(os.take(i))).len() as int)
            =~= (pre + operation_occurrences(os.take(j - 1))).take((pre + operation_occurrences(os.take(i))).len() as int));
    }
}

/// Keys `ks` and entries `cm` are those of the model `st`.
pub open spec fn mirrors(ks: Seq<u64>, cm: Seq<(String, Message)>, st: Seq<(u64, Seq<char>, Message)>) -> bool {
    &&& ks.len() == st.len()
    &&& cm.len() == st.len()
    &&& forall|e: int|
        0 <= e < st.len() ==> ks[e] == (#[trigger] st[e]).0 && cm[e].0@ == st[e].1 && cm[e].1 == st[e].2
}

proof fn lemma_mirrors_free_slot(
    ks: Seq<u64>,
    cm: Seq<(String, Message)>,
    st: Seq<(u64, Seq<char>, Message)>,
    base: Seq<char>,
    k: u64,
)
    requires
        mirrors(ks, cm, st),
    ensures
        free_slot(cm, base) == first_free(st, base),
        ks.contains(k) == key_stored(st, k),
{
    assert forall|x: Seq<char>| slot_taken(cm, x) == slot_used(st, x) by {
        if slot_taken(cm, x) {
            let j = choose|j: int| 0 <= j < cm.len() && (#[trigger] cm[j]).0@ == x;
            assert(st[j].1 == x);
        }
        if slot_used(st, x) {
            let j = choose|j: int| 0 <= j < st.len() && (#[trigger] st[j]).1 == x;
            assert(cm[j].0@ == x);
        }
    }
    if ks.contains(k) {
        let j = choose|j: int| 0 <= j < ks.len() && ks[j] == k;
        assert(st[j].0 == k);
    }
    if key_stored(st, k) {
        let j = choose|j: int| 0 <= j < st.len() && (#[trigger] st[j]).0 == k;
        assert(ks[j] == k);
    }
}

/// Interns each descriptor in order, pairing its name with what it became.
fn intern_all(
    reg: &mut ComponentRegistry,
    descriptors: Vec<MessageDescriptor>,
    Ghost(cs): Ghost<Seq<ChannelSpec>>,
    Ghost(os): Ghost<Seq<OperationSpec>>,
    Ghost(prefix): Ghost<Seq<MessageDescriptor>>,
) -> (r: Result<Vec<(String, MessageRef)>, AssemblyError>)
    requires
        mirrors(old(reg).keys(), old(reg).entries(), stored_after(prefix, old(reg).tallied())),
        !runs_out_of_slots(prefix, old(reg).tallied()),
        old(reg).wf(),
        old(reg).phase() == RegistryPhase::Populated,
        old(reg).tallied() == all_keys(cs, os),
        forall|j: int| 0 <= j < descriptors@.len() ==> occurs(cs, os, #[trigger] descriptors@[j]),
        distinct_bases(cs, os) ==> forall|e: int|
            0 <= e < old(reg).keys().len() ==> based(
                cs,
                os,
                #[trigger] old(reg).keys()[e],
                old(reg).entries()[e],
            ),
    ensures
        distinct_bases(cs, os) ==> r is Ok && forall|e: int|
            0 <= e < final(reg).keys().len() ==> based(
                cs,
                os,
                #[trigger] final(reg).keys()[e],
                final(reg).entries()[e],
            ),
        r is Ok ==> mirrors(
            final(reg).keys(),
            final(reg).entries(),
            stored_after(prefix + descriptors@, old(reg).tallied()),
        ),
        r is Ok <==> !runs_out_of_slots(prefix + descriptors@, old(reg).tallied()),
        final(reg).wf(),
        final(reg).phase() == RegistryPhase::Populated,
        final(reg).tallied() == old(reg).tallied(),
        extends(old(reg).keys(), old(reg).entries(), final(reg).keys(), final(reg).entries()),
        r matches Ok(v) ==> v@.len() == descriptors@.len() && forall|j: int|
            0 <= j < v@.len() ==> (#[trigger] v@[j]).0@ == descriptors@[j].name@ && occurrence_ok(
                descriptors@[j],
                v@[j].1,
                final(reg).tallied(),
                final(reg).keys(),
                final(reg).entries(),
            ),
        r is Err ==> r matches Err(AssemblyError::DuplicateSlotName { .. }),
        forall|e: int|
            old(reg).keys().len() <= e < final(reg).keys().len() ==> comes_from(
                descriptors@,
                #[trigger] final(reg).keys()[e],
                final(reg).entries()[e],
            ),
{
    let ghost ms0 = descriptors@;
    let ghost ks0 = reg.keys();
    let ghost cm0 = reg.entries();
    let mut ms = descriptors;
    let mut out: Vec<(String, MessageRef)> = Vec::new();
    while ms.len() > 0
        invariant
            reg.wf(),
            reg.phase() == RegistryPhase::Populated,
            reg.tallied() == old(reg).tallied(),
            ks0 == old(reg).keys(),
            ms0 == descriptors@,
            mirrors(reg.keys(), reg.entries(), stored_after(prefix + ms0.take(out@.len() as int), reg.tallied())),
            !runs_out_of_slots(prefix + ms0.take(out@.len() as int), reg.tallied()),
            reg.tallied() == all_keys(cs, os),
            forall|j: int| 0 <= j < ms0.len() ==> occurs(cs, os, #[trigger] ms0[j]),
            distinct_bases(cs, os) ==> forall|e: int|
                0 <= e < reg.keys().len() ==> based(cs, os, #[trigger] reg.keys()[e], reg.entries()[e]),
            cm0 == old(reg).entries(),
            extends(ks0, cm0, reg.keys(), reg.entries()),
            out@.len() + ms@.len() == ms0.len(),
            ms@ == ms0.skip(out@.len() as int),
            forall|e: int|
                ks0.len() <= e < reg.keys().len() ==> comes_from(ms0, #[trigger] reg.keys()[e], reg.entries()[e]),
            forall|j: int|
                0 <= j < out@.len() ==> (#[trigger] out@[j]).0@ == ms0[j].name@ && occurrence_ok(
                    ms0[j],
                    out@[j].1,
                    reg.tallied(),
                    reg.keys(),
                    reg.entries(),
                ),
        decreases ms@.len(),
    {
        let ghost k = out@.len() as int;
        let ghost ks1 = reg.keys();
        let ghost cm1 = reg.entries();
        let d = ms.remove(0);
        assert(d == ms0[k]);
        assert(ms@ =~= ms0.skip(k + 1));
        let name = d.name.clone();
        let ghost dg = d;
        let key = d.identity_key;
        proof {
            if distinct_bases(cs, os) && count_of(reg.tallied(), key) >= 2 && !ks1.contains(key) {
                assert(occurs(cs, os, dg));
                assert forall|e: int| 0 <= e < cm1.len() implies (#[trigger] cm1[e]).0@ != base_slot(dg) by {
                    assert(based(cs, os, ks1[e], cm1[e]));
                    let de = choose|de: MessageDescriptor| #[trigger] occurs(cs, os, de) && de.identity_key == ks1[e] && cm1[e].0@ == base_slot(de);
                    assert(ks1[e] != key);
                    assert(count_of(reg.tallied(), ks1[e]) >= 2);
                }
                assert(!slot_taken(cm1, candidate_slot(base_slot(dg), 0)));
                assert(free_slot(cm1, base_slot(dg)) == Some(base_slot(dg)));
            }
        }
        let m = match reg.intern_message(d) {
            Ok(m) => m,
            Err(e) => {
                proof {
                    let pre = prefix + ms0.take(k);
                    let post = prefix + ms0.take(k + 1);
                    assert(post.drop_last() =~= pre);
                    lemma_mirrors_free_slot(ks1, cm1, stored_after(pre, reg.tallied()), base_slot(dg), key);
                    assert(runs_out_of_slots(post, reg.tallied()));
                    assert((prefix + ms0).take(post.len() as int) =~= post);
                    lemma_runs_out_prefix(post, prefix + ms0, reg.tallied());
                }
                return Err(e);
            },
        };
        proof {
            let pre = prefix + ms0.take(k);
            let post = prefix + ms0.take(k + 1);
            assert(post.drop_last() =~= pre);
            assert(post.last() == dg);
            let st = stored_after(pre, reg.tallied());
            lemma_mirrors_free_slot(ks1, cm1, st, base_slot(dg), key);
            if reg.keys().len() > ks1.len() {
                let st2 = stored_after(post, reg.tallied());
                assert(st2 == st.push((key, reg.entries().last().0@, message_of(dg))));
                assert forall|e: int| 0 <= e < st2.len() implies reg.keys()[e] == (#[trigger] st2[e]).0
                    && reg.entries()[e].0@ == st2[e].1 && reg.entries()[e].1 == st2[e].2 by {
                    if e < st.len() {
                        assert(st2[e] == st[e]);
                        assert(reg.keys()[e] == ks1[e]);
                        assert(reg.entries()[e] == cm1[e]);
                    }
                }
            }
            assert(mirrors(reg.keys(), reg.entries(), stored_after(post, reg.tallied())));
            assert(!runs_out_of_slots(post, reg.tallied()));
            lemma_free_slot_is_candidate(cm1, base_slot(dg));
            if distinct_bases(cs, os) {
                assert forall|e: int| 0 <= e < reg.keys().len() implies based(cs, os, #[trigger] reg.keys()[e], reg.entries()[e]) by {
                    if e < ks1.len() {
                        assert(reg.keys()[e] == ks1[e]);
                        assert(reg.entries()[e] == cm1[e]);
                        assert(based(cs, os, ks1[e], cm1[e]));
                    } else {
                        assert(occurs(cs, os, dg));
                    }
                }
            }
            if reg.keys().len() > ks1.len() {
                assert(entry_from(ms0[k], reg.keys()[ks1.len() as int], reg.entries()[ks1.len() as int]));
            }
            assert forall|e: int| ks0.len() <= e < reg.keys().len() implies comes_from(ms0, #[trigger] reg.keys()[e], reg.entries()[e]) by {
                if e < ks1.len() {
                    assert(reg.keys()[e] == ks1[e]);
                    assert(reg.entries()[e] == cm1[e]);
                    assert(comes_from(ms0, ks1[e], cm1[e]));
                } else {
                    assert(entry_from(ms0[k], reg.keys()[e], reg.entries()[e]));
                }
            }
            if count_of(reg.tallied(), key) >= 2 {
                assert(reg.keys().contains(key));
                let e = choose|e: int| 0 <= e < reg.keys().len() && reg.keys()[e] == key;
                assert(reg.slot_for(key) == reg.entries()[e].0@);
            }
            assert(occurrence_ok(dg, m, reg.tallied(), reg.keys(), reg.entries()));
            assert forall|j: int| 0 <= j < out@.len() implies occurrence_ok(
                ms0[j],
                out@[j].1,
                reg.tallied(),
                reg.keys(),
                reg.entries(),
            ) by {
                lemma_occurrence_stable(ms0[j], out@[j].1, reg.tallied(), ks1, cm1, reg.keys(), reg.entries());
            }
        }
        out.push((name, m));
    }
    assert(ms0.take(ms0.len() as int) == ms0);
    Ok(out)
}

fn refs_only(v: Vec<(String, MessageRef)>) -> (r: Vec<MessageRef>)
    ensures
        r@.len() == v@.len(),
        forall|j: int| 0 <= j < v@.len() ==> r@[j] == (#[trigger] v@[j]).1,
{
    let ghost v0 = v@;
    let mut v = v;
    let mut out: Vec<MessageRef> = Vec::new();
    while v.len() > 0
        invariant
            out@.len() + v@.len() == v0.len(),
            v@ == v0.skip(out@.len() as int),
            forall|j: int| 0 <= j < out@.len() ==> out@[j] == (#[trigger] v0[j]).1,
        decreases v@.len(),
    {
        let ghost k = out@.len() as int;
        let (_, m) = v.remove(0);
        assert(v@ =~= v0.skip(k + 1));
        out.push(m);
    }
    out
}

fn build_channel(
    reg: &mut ComponentRegistry,
    c: ChannelSpec,
    Ghost(cs): Ghost<Seq<ChannelSpec>>,
    Ghost(os): Ghost<Seq<OperationSpec>>,
    Ghost(prefix): Ghost<Seq<MessageDescriptor>>,
) -> (r: Result<(String, Channel), AssemblyError>)
    requires
        mirrors(old(reg).keys(), old(reg).entries(), stored_after(prefix, old(reg).tallied())),
        !runs_out_of_slots(prefix, old(reg).tallied()),
        old(reg).wf(),
        old(reg).phase() == RegistryPhase::Populated,
        old(reg).tallied() == all_keys(cs, os),
        forall|j: int| 0 <= j < c.messages@.len() ==> occurs(cs, os, #[trigger] c.messages@[j]),
        distinct_bases(cs, os) ==> forall|e: int|
            0 <= e < old(reg).keys().len() ==> based(
                cs,
                os,
                #[trigger] old(reg).keys()[e],
                old(reg).entries()[e],
            ),
    ensures
        r is Ok <==> !runs_out_of_slots(prefix + c.messages@, old(reg).tallied()),
        r is Ok ==> mirrors(
            final(reg).keys(),
            final(reg).entries(),
            stored_after(prefix + c.messages@, old(reg).tallied()),
        ),
        distinct_bases(cs, os) ==> r is Ok && forall|e: int|
            0 <= e < final(reg).keys().len() ==> based(
                cs,
                os,
                #[trigger] final(reg).keys()[e],
                final(reg).entries()[e],
            ),
        final(reg).wf(),
        final(reg).phase() == RegistryPhase::Populated,
        final(reg).tallied() == old(reg).tallied(),
        extends(old(reg).keys(), old(reg).entries(), final(reg).keys(), final(reg).entries()),
        r matches Ok(out) ==> channel_ok(c, out, final(reg).tallied(), final(reg).keys(), final(reg).entries()),
        r is Err ==> r matches Err(AssemblyError::DuplicateSlotName { .. }),
    forall|e: int|
            old(reg).keys().len() <= e < final(reg).keys().len() ==> comes_from(
                c.messages@,
                #[trigger] final(reg).keys()[e],
                final(reg).entries()[e],
            ),
{
    let ChannelSpec { name, address, messages } = c;
    if messages.len() == 0 {
        assert(prefix + messages@ =~= prefix);
        return Ok((name, Channel { address, messages: None }));
    }
    let v = match intern_all(reg, messages, Ghost(cs), Ghost(os), Ghost(prefix)) {
        Ok(v) => v,
        Err(e) => {
            return Err(e);
        },
    };
    Ok((name, Channel { address, messages: Some(v) }))
}

fn channel_path(name: &String) -> (r: String)
    ensures
        r@ == channels_prefix() + name@,
{
    let mut p = String::from_str("#/channels/");
    p.append(name.as_str());
    p
}

fn build_operation(
    reg: &mut ComponentRegistry,
    o: OperationSpec,
    Ghost(cs): Ghost<Seq<ChannelSpec>>,
    Ghost(os): Ghost<Seq<OperationSpec>>,
    Ghost(prefix): Ghost<Seq<MessageDescriptor>>,
) -> (r: Result<(String, Operation), AssemblyError>)
    requires
        mirrors(old(reg).keys(), old(reg).entries(), stored_after(prefix, old(reg).tallied())),
        !runs_out_of_slots(prefix, old(reg).tallied()),
        old(reg).wf(),
        old(reg).phase() == RegistryPhase::Populated,
        old(reg).tallied() == all_keys(cs, os),
        forall|j: int| 0 <= j < o.messages@.len() ==> occurs(cs, os, #[trigger] o.messages@[j]),
        distinct_bases(cs, os) ==> forall|e: int|
            0 <= e < old(reg).keys().len() ==> based(
                cs,
                os,
                #[trigger] old(reg).keys()[e],
                old(reg).entries()[e],
            ),
    ensures
        r is Ok <==> !runs_out_of_slots(prefix + o.messages@, old(reg).tallied()),
        r is Ok ==> mirrors(
            final(reg).keys(),
            final(reg).entries(),
            stored_after(prefix + o.messages@, old(reg).tallied()),
        ),
        distinct_bases(cs, os) ==> r is Ok && forall|e: int|
            0 <= e < final(reg).keys().len() ==> based(
                cs,
                os,
                #[trigger] final(reg).keys()[e],
                final(reg).entries()[e],
            ),
        final(reg).wf(),
        final(reg).phase() == RegistryPhase::Populated,
        final(reg).tallied() == old(reg).tallied(),
        extends(old(reg).keys(), old(reg).entries(), final(reg).keys(), final(reg).entries()),
        r matches Ok(out) ==> operation_ok(o, out, final(reg).tallied(), final(reg).keys(), final(reg).entries()),
        r is Err ==> r matches Err(AssemblyError::DuplicateSlotName { .. }),
    forall|e: int|
            old(reg).keys().len() <= e < final(reg).keys().len() ==> comes_from(
                o.messages@,
                #[trigger] final(reg).keys()[e],
                final(reg).entries()[e],
            ),
{
    let ghost og = o;
    let OperationSpec { name, action, channel_name, messages } = o;
    let channel = ChannelRef { reference: channel_path(&channel_name) };
    if messages.len() == 0 {
        assert(prefix + messages@ =~= prefix);
        return Ok((name, Operation { action, channel, messages: None }));
    }
    let v = match intern_all(reg, messages, Ghost(cs), Ghost(os), Ghost(prefix)) {
        Ok(v) => v,
        Err(e) => {
            return Err(e);
        },
    };
    let refs = refs_only(v);
    proof {
        assert forall|j: int| 0 <= j < refs@.len() implies occurrence_ok(
            og.messages@[j],
            #[trigger] refs@[j],
            reg.tallied(),
            reg.keys(),
            reg.entries(),
        ) by {
            assert(refs@[j] == v@[j].1);
        }
    }
    Ok((name, Operation { action, channel, messages: Some(refs) }))
}

proof fn lemma_channel_stable(
    c: ChannelSpec,
    out: (String, Channel),
    t: Seq<u64>,
    ks: Seq<u64>,
    cm: Seq<(String, Message)>,
    ks2: Seq<u64>,
    cm2: Seq<(String, Message)>,
)
    requires
        channel_ok(c, out, t, ks, cm),
        extends(ks, cm, ks2, cm2),
    ensures
        channel_ok(c, out, t, ks2, cm2),
{
    if let Some(v) = out.1.messages {
        assert forall|j: int| 0 <= j < v@.len() implies occurrence_ok(c.messages@[j], (#[trigger] v@[j]).1, t, ks2, cm2) by {
            lemma_occurrence_stable(c.messages@[j], v@[j].1, t, ks, cm, ks2, cm2);
        }
    }
}

proof fn lemma_operation_stable(
    o: OperationSpec,
    out: (String, Operation),
    t: Seq<u64>,
    ks: Seq<u64>,
    cm: Seq<(String, Message)>,
    ks2: Seq<u64>,
    cm2: Seq<(String, Message)>,
)
    requires
        operation_ok(o, out, t, ks, cm),
        extends(ks, cm, ks2, cm2),
    ensures
        operation_ok(o, out, t, ks2, cm2),
{
    if let Some(v) = out.1.messages {
        assert forall|j: int| 0 <= j < v@.len() implies occurrence_ok(o.messages@[j], #[trigger] v@[j], t, ks2, cm2) by {
            lemma_occurrence_stable(o.messages@[j], v@[j], t, ks, cm, ks2, cm2);
        }
    }
}

/// The operation at index `o` is the first whose channel is not declared,
/// and `name` is that channel's name.
pub open spec fn first_unknown_channel(cs: Seq<ChannelSpec>, os: Seq<OperationSpec>, name: Seq<char>) -> bool {
    exists|o: int|
        0 <= o < os.len() && (#[trigger] os[o]).channel_name@ == name && !declares_channel(cs, name)
            && forall|p: int| 0 <= p < o ==> declares_channel(cs, (#[trigger] os[p]).channel_name@)
}

/// `s` is the document assembled from the declarations, where `ks` gives the
/// identity key of each entry of `components.messages`: every occurrence is
/// inline or the reference to its key's entry (see `occurrence_ok`), each
/// stored key is unique and occurs at least twice, slot names are unique,
/// each entry is the message of a descriptor of its key under one of that
/// descriptor's candidate slot names, and every empty section is omitted.
pub open spec fn assembled(
    ks: Seq<u64>,
    info: Info,
    servers: Seq<(String, Server)>,
    cs: Seq<ChannelSpec>,
    os: Seq<OperationSpec>,
    s: AsyncApiSpec,
) -> bool {
    let t = all_keys(cs, os);
    let cm = component_messages(s);
    &&& !has_unknown_channel(cs, os)
    &&& s.asyncapi@ == "3.0.0"@
    &&& s.info == info
    &&& match s.servers {
        None => servers.len() == 0,
        Some(v) => servers.len() > 0 && v@ == servers,
    }
    &&& match s.channels {
        None => cs.len() == 0,
        Some(v) => cs.len() > 0 && v@.len() == cs.len() && forall|i: int|
            0 <= i < v@.len() ==> channel_ok(cs[i], #[trigger] v@[i], t, ks, cm),
    }
    &&& match s.operations {
        None => os.len() == 0,
        Some(v) => os.len() > 0 && v@.len() == os.len() && forall|i: int|
            0 <= i < v@.len() ==> operation_ok(os[i], #[trigger] v@[i], t, ks, cm),
    }
    &&& match s.components {
        None => ks.len() == 0,
        Some(c) => ks.len() > 0 && c.schemas is None && c.messages is Some,
    }
    &&& ks.len() == cm.len()
    &&& forall|i: int, j: int| 0 <= i < j < ks.len() ==> ks[i] != ks[j]
    &&& forall|i: int, j: int| 0 <= i < j < cm.len() ==> cm[i].0@ != cm[j].0@
    &&& forall|i: int| 0 <= i < ks.len() ==> count_of(t, #[trigger] ks[i]) >= 2
    &&& forall|e: int| 0 <= e < ks.len() ==> from_declarations(cs, os, #[trigger] ks[e], cm[e])
    &&& mirrors(ks, cm, stored_after(occurrences(cs, os), t))
}

/// Assembles a document from the API information, the servers, and the
/// channel and operation declarations, deduplicating messages into
/// `components.messages`. Fails on the first operation that names an
/// undeclared channel; otherwise exactly when some message finds no free slot
/// name (which cannot happen while repeated messages of distinct identity keys
/// ask for distinct base slot names); otherwise on a payload schema
/// reference, which cannot resolve since the document has no
/// `components.schemas`.
pub fn assemble(
    info: Info,
    servers: Vec<(String, Server)>,
    channel_specs: Vec<ChannelSpec>,
    operation_specs: Vec<OperationSpec>,
) -> (r: Result<AsyncApiSpec, AssemblyError>)
    ensures
        has_unknown_channel(channel_specs@, operation_specs@) <==> (r matches Err(
            AssemblyError::UnknownChannel { .. },
        )),
        r matches Err(AssemblyError::UnknownChannel { name }) ==> first_unknown_channel(
            channel_specs@,
            operation_specs@,
            name@,
        ),
        r matches Ok(s) ==> (exists|ks: Seq<u64>|
            assembled(ks, info, servers@, channel_specs@, operation_specs@, s))
            && references_resolve(s) && schemas_resolve(s),
        r matches Err(AssemblyError::DanglingReference { .. }) ==> !payloads_resolve(
            channel_specs@,
            operation_specs@,
        ),
        r is Err ==> (r matches Err(AssemblyError::UnknownChannel { .. })) || (r matches Err(
            AssemblyError::DuplicateSlotName { .. },
        )) || (r matches Err(AssemblyError::DanglingReference { .. })),
        !has_unknown_channel(channel_specs@, operation_specs@) && distinct_bases(
            channel_specs@,
            operation_specs@,
        ) && payloads_resolve(channel_specs@, operation_specs@) ==> r is Ok,
        (r matches Err(AssemblyError::DuplicateSlotName { .. })) <==> !has_unknown_channel(
            channel_specs@,
            operation_specs@,
        ) && runs_out_of_slots(
            occurrences(channel_specs@, operation_specs@),
            all_keys(channel_specs@, operation_specs@),
        ),
        !has_unknown_channel(channel_specs@, operation_specs@) && !runs_out_of_slots(
            occurrences(channel_specs@, operation_specs@),
            all_keys(channel_specs@, operation_specs@),
        ) && payloads_resolve(channel_specs@, operation_specs@) ==> r is Ok,
{
    let ghost cs0 = channel_specs@;
    let ghost os0 = operation_specs@;
    let ghost info0 = info;
    let ghost servers0 = servers@;
    if let Some(o) = find_unknown_channel(&channel_specs, &operation_specs) {
        let name = operation_specs[o].channel_name.clone();
        assert(os0[o as int].channel_name@ == name@);
        return Err(AssemblyError::UnknownChannel { name });
    }
    let mut reg = ComponentRegistry::new();
    tally_all(&mut reg, &channel_specs, &operation_specs);
    let _ = reg.close_tally();
    let ghost t = reg.tallied();
    let mut cs = channel_specs;
    let mut channels: Vec<(String, Channel)> = Vec::new();
    assert(channel_occurrences(cs0.take(0)) =~= Seq::<MessageDescriptor>::empty());
    while cs.len() > 0
        invariant
            reg.wf(),
            reg.phase() == RegistryPhase::Populated,
            reg.tallied() == t,
            t == all_keys(cs0, os0),
            !has_unknown_channel(cs0, os0),
            cs0 == channel_specs@,
            os0 == operation_specs@,
            channels@.len() + cs@.len() == cs0.len(),
            mirrors(reg.keys(), reg.entries(), stored_after(channel_occurrences(cs0.take(channels@.len() as int)), t)),
            !runs_out_of_slots(channel_occurrences(cs0.take(channels@.len() as int)), t),
            cs@ == cs0.skip(channels@.len() as int),
            forall|i: int|
                0 <= i < channels@.len() ==> channel_ok(cs0[i], #[trigger] channels@[i], t, reg.keys(), reg.entries()),
            forall|e: int|
                0 <= e < reg.keys().len() ==> from_declarations(cs0, os0, #[trigger] reg.keys()[e], reg.entries()[e]),
            distinct_bases(cs0, os0) ==> forall|e: int|
                0 <= e < reg.keys().len() ==> based(cs0, os0, #[trigger] reg.keys()[e], reg.entries()[e]),
        decreases cs@.len(),
    {
        let ghost k = channels@.len() as int;
        let ghost ks1 = reg.keys();
        let ghost cm1 = reg.entries();
        let c = cs.remove(0);
        assert(c == cs0[k]);
        assert(cs@ =~= cs0.skip(k + 1));
        assert(cs0.take(k + 1).drop_last() =~= cs0.take(k));
        assert(channel_occurrences(cs0.take(k + 1)) == channel_occurrences(cs0.take(k)) + cs0[k].messages@);
        let out = match build_channel(&mut reg, c, Ghost(cs0), Ghost(os0), Ghost(channel_occurrences(cs0.take(k)))) {
            Ok(out) => out,
            Err(e) => {
                proof {
                    let a = channel_occurrences(cs0.take(k + 1));
                    lemma_channel_occurrences_prefix(cs0, k + 1, cs0.len() as int);
                    assert(cs0.take(cs0.len() as int) == cs0);
                    lemma_runs_out_prefix(a, channel_occurrences(cs0), t);
                    assert(occurrences(cs0, os0).take(channel_occurrences(cs0).len() as int) =~= channel_occurrences(cs0));
                    lemma_runs_out_prefix(channel_occurrences(cs0), occurrences(cs0, os0), t);
                }
                return Err(e);
            },
        };
        proof {
            assert(cs0.take(k + 1).drop_last() =~= cs0.take(k));
            assert(channel_occurrences(cs0.take(k + 1)) == channel_occurrences(cs0.take(k)) + cs0[k].messages@);
            assert forall|i: int| 0 <= i < channels@.len() implies channel_ok(cs0[i], #[trigger] channels@[i], t, reg.keys(), reg.entries()) by {
                lemma_channel_stable(cs0[i], channels@[i], t, ks1, cm1, reg.keys(), reg.entries());
            }
            assert forall|e: int| 0 <= e < reg.keys().len() implies from_declarations(cs0, os0, #[trigger] reg.keys()[e], reg.entries()[e]) by {
                if e < ks1.len() {
                    assert(reg.keys()[e] == ks1[e]);
                    assert(reg.entries()[e] == cm1[e]);
                    assert(from_declarations(cs0, os0, ks1[e], cm1[e]));
                } else {
                    assert(comes_from(cs0[k].messages@, reg.keys()[e], reg.entries()[e]));
                }
            }
        }
        channels.push(out);
    }
    let mut os = operation_specs;
    let mut operations: Vec<(String, Operation)> = Vec::new();
    assert(cs0.take(cs0.len() as int) == cs0);
    assert(channel_occurrences(cs0) + operation_occurrences(os0.take(0)) =~= channel_occurrences(cs0));
    while os.len() > 0
        invariant
            reg.wf(),
            reg.phase() == RegistryPhase::Populated,
            reg.tallied() == t,
            t == all_keys(cs0, os0),
            !has_unknown_channel(cs0, os0),
            cs0 == channel_specs@,
            os0 == operation_specs@,
            channels@.len() == cs0.len(),
            operations@.len() + os@.len() == os0.len(),
            mirrors(
                reg.keys(),
                reg.entries(),
                stored_after(channel_occurrences(cs0) + operation_occurrences(os0.take(operations@.len() as int)), t),
            ),
            !runs_out_of_slots(channel_occurrences(cs0) + operation_occurrences(os0.take(operations@.len() as int)), t),
            os@ == os0.skip(operations@.len() as int),
            forall|i: int|
                0 <= i < channels@.len() ==> channel_ok(cs0[i], #[trigger] channels@[i], t, reg.keys(), reg.entries()),
            forall|i: int|
                0 <= i < operations@.len() ==> operation_ok(os0[i], #[trigger] operations@[i], t, reg.keys(), reg.entries()),
            forall|e: int|
                0 <= e < reg.keys().len() ==> from_declarations(cs0, os0, #[trigger] reg.keys()[e], reg.entries()[e]),
            distinct_bases(cs0, os0) ==> forall|e: int|
                0 <= e < reg.keys().len() ==> based(cs0, os0, #[trigger] reg.keys()[e], reg.entries()[e]),
        decreases os@.len(),
    {
        let ghost k = operations@.len() as int;
        let ghost ks1 = reg.keys();
        let ghost cm1 = reg.entries();
        let o = os.remove(0);
        assert(o == os0[k]);
        assert(os@ =~= os0.skip(k + 1));
        assert(os0.take(k + 1).drop_last() =~= os0.take(k));
        assert(channel_occurrences(cs0) + operation_occurrences(os0.take(k + 1)) =~= channel_occurrences(cs0)
            + operation_occurrences(os0.take(k)) + os0[k].messages@);
        let out = match build_operation(&mut reg, o, Ghost(cs0), Ghost(os0), Ghost(channel_occurrences(cs0) + operation_occurrences(os0.take(k)))) {
            Ok(out) => out,
            Err(e) => {
                proof {
                    let a = channel_occurrences(cs0) + operation_occurrences(os0.take(k + 1));
                    lemma_operation_occurrences_prefix(channel_occurrences(cs0), os0, k + 1, os0.len() as int);
                    assert(os0.take(os0.len() as int) == os0);
                    lemma_runs_out_prefix(a, occurrences(cs0, os0), t);
                }
                return Err(e);
            },
        };
        proof {
            assert(os0.take(k + 1).drop_last() =~= os0.take(k));
            assert(channel_occurrences(cs0) + operation_occurrences(os0.take(k + 1)) =~= channel_occurrences(cs0)
                + operation_occurrences(os0.take(k)) + os0[k].messages@);
            assert forall|i: int| 0 <= i < channels@.len() implies channel_ok(cs0[i], #[trigger] channels@[i], t, reg.keys(), reg.entries()) by {
                lemma_channel_stable(cs0[i], channels@[i], t, ks1, cm1, reg.keys(), reg.entries());
            }
            assert forall|i: int| 0 <= i < operations@.len() implies operation_ok(os0[i], #[trigger] operations@[i], t, reg.keys(), reg.entries()) by {
                lemma_operation_stable(os0[i], operations@[i], t, ks1, cm1, reg.keys(), reg.entries());
            }
            assert forall|e: int| 0 <= e < reg.keys().len() implies from_declarations(cs0, os0, #[trigger] reg.keys()[e], reg.entries()[e]) by {
                if e < ks1.len() {
                    assert(reg.keys()[e] == ks1[e]);
                    assert(reg.entries()[e] == cm1[e]);
                    assert(from_declarations(cs0, os0, ks1[e], cm1[e]));
                } else {
                    assert(comes_from(os0[k].messages@, reg.keys()[e], reg.entries()[e]));
                }
            }
        }
        operations.push(out);
    }
    let ghost ks = reg.keys();
    assert(os0.take(os0.len() as int) == os0);
    let entries = reg.seal();
    let components = if entries.len() == 0 {
        None
    } else {
        Some(Components { messages: Some(entries), schemas: None })
    };
    let server_section = if servers.len() == 0 {
        None
    } else {
        Some(servers)
    };
    let channel_section = if channels.len() == 0 {
        None
    } else {
        Some(channels)
    };
    let operation_section = if operations.len() == 0 {
        None
    } else {
        Some(operations)
    };
    let s = AsyncApiSpec {
        asyncapi: String::from_str("3.0.0"),
        info,
        servers: server_section,
        channels: channel_section,
        operations: operation_section,
        components,
    };
    assert(component_messages(s) =~= entries@);
    assert(assembled(ks, info0, servers0, cs0, os0, s));
    proof {
        lemma_assembled_references_resolve(ks, info0, servers0, cs0, os0, s);
        if payloads_resolve(cs0, os0) {
            lemma_assembled_schemas_resolve(ks, info0, servers0, cs0, os0, s);
        }
    }
    if let Some(bad) = check_schemas(&s) {
        return Err(AssemblyError::DanglingReference { reference: bad });
    }
    Ok(s)
}

pub open spec fn channel_messages(c: Channel) -> Seq<(String, MessageRef)> {
    match c.messages {
        Some(v) => v@,
        None => Seq::empty(),
    }
}

pub open spec fn operation_messages(o: Operation) -> Seq<MessageRef> {
    match o.messages {
        Some(v) => v@,
        None => Seq::empty(),
    }
}

/// A message at a use site resolves: it is inline, or its path names an entry of `cm`.
pub open spec fn message_ref_resolves(r: MessageRef, cm: Seq<(String, Message)>) -> bool {
    match r {
        MessageRef::Inline(_) => true,
        MessageRef::Reference { reference } => exists|e: int|
            0 <= e < cm.len() && reference@ == message_path((#[trigger] cm[e]).0@),
    }
}

/// A channel reference names a channel of `chans`.
pub open spec fn channel_ref_resolves(c: ChannelRef, chans: Seq<(String, Channel)>) -> bool {
    exists|i: int| 0 <= i < chans.len() && c.reference@ == channels_prefix() + (#[trigger] chans[i]).0@
}

/// Every reference of the document resolves.
pub open spec fn references_resolve(s: AsyncApiSpec) -> bool {
    let cm = component_messages(s);
    let chans = channel_entries(s);
    let ops = operation_entries(s);
    &&& forall|i: int, j: int|
        0 <= i < chans.len() && 0 <= j < channel_messages(chans[i].1).len() ==> message_ref_resolves(
            (#[trigger] channel_messages(chans[i].1)[j]).1,
            cm,
        )
    &&& forall|i: int| 0 <= i < ops.len() ==> channel_ref_resolves((#[trigger] ops[i]).1.channel, chans)
    &&& forall|i: int, j: int|
        0 <= i < ops.len() && 0 <= j < operation_messages(ops[i].1).len() ==> message_ref_resolves(
            #[trigger] operation_messages(ops[i].1)[j],
            cm,
        )
}

/// The payload of `m`, if any, has only schema references that name entries of `sc`.
pub open spec fn payload_resolves(m: Message, sc: Seq<(String, Schema)>) -> bool {
    m.payload matches Some(p) ==> schema_refs_resolve(p, sc)
}

pub open spec fn inline_payload_resolves(r: MessageRef, sc: Seq<(String, Schema)>) -> bool {
    r matches MessageRef::Inline(m) ==> payload_resolves(*m, sc)
}

/// Every schema reference of the document, in payloads and in
/// `components.schemas`, names an entry of `components.schemas`.
pub open spec fn schemas_resolve(s: AsyncApiSpec) -> bool {
    let cm = component_messages(s);
    let sc = component_schemas(s);
    let chans = channel_entries(s);
    let ops = operation_entries(s);
    &&& forall|i: int, j: int|
        0 <= i < chans.len() && 0 <= j < channel_messages(chans[i].1).len() ==> inline_payload_resolves(
            (#[trigger] channel_messages(chans[i].1)[j]).1,
            sc,
        )
    &&& forall|i: int, j: int|
        0 <= i < ops.len() && 0 <= j < operation_messages(ops[i].1).len() ==> inline_payload_resolves(
            #[trigger] operation_messages(ops[i].1)[j],
            sc,
        )
    &&& forall|e: int| 0 <= e < cm.len() ==> payload_resolves((#[trigger] cm[e]).1, sc)
    &&& forall|e: int| 0 <= e < sc.len() ==> schema_refs_resolve((#[trigger] sc[e]).1, sc)
}

/// Every declared payload has no schema reference (an assembled document has no `components.schemas`).
pub open spec fn payloads_resolve(cs: Seq<ChannelSpec>, os: Seq<OperationSpec>) -> bool {
    forall|d: MessageDescriptor|
        #[trigger] occurs(cs, os, d) ==> (d.payload matches Some(p) ==> schema_refs_resolve(
            p,
            Seq::empty(),
        ))
}

fn message_path_of(slot: &String) -> (r: String)
    ensures
        r@ == message_path(slot@),
{
    let mut p = String::from_str("#/components/messages/");
    p.append(slot.as_str());
    p
}

/// The dangling path of a message at a use site, if any.
fn check_message_ref(r: &MessageRef, cm: &Vec<(String, Message)>) -> (res: Option<String>)
    ensures
        res is None <==> message_ref_resolves(*r, cm@),
{
    match r {
        MessageRef::Inline(_) => None,
        MessageRef::Reference { reference } => {
            let mut e: usize = 0;
            while e < cm.len()
                invariant
                    0 <= e <= cm@.len(),
                    *r == (MessageRef::Reference { reference: *reference }),
                    forall|q: int| 0 <= q < e ==> reference@ != message_path((#[trigger] cm@[q]).0@),
                decreases cm@.len() - e,
            {
                let p = message_path_of(&cm[e].0);
                if p == *reference {
                    assert(reference@ == message_path(cm@[e as int].0@));
                    return None;
                }
                e += 1;
            }
            Some(reference.clone())
        },
    }
}

fn check_channel_ref(c: &ChannelRef, chans: &Vec<(String, Channel)>) -> (res: bool)
    ensures
        res == channel_ref_resolves(*c, chans@),
{
    let mut i: usize = 0;
    while i < chans.len()
        invariant
            0 <= i <= chans@.len(),
            forall|q: int| 0 <= q < i ==> c.reference@ != channels_prefix() + (#[trigger] chans@[q]).0@,
        decreases chans@.len() - i,
    {
        let p = channel_path(&chans[i].0);
        if p == c.reference {
            return true;
        }
        i += 1;
    }
    false
}

/// Checks that every reference of a document resolves: each message reference
/// to an entry of `components.messages`, each operation's channel to a
/// channel, and each schema reference to an entry of `components.schemas`.
pub fn validate(spec: &AsyncApiSpec) -> (r: Result<(), AssemblyError>)
    ensures
        r is Ok <==> references_resolve(*spec) && schemas_resolve(*spec),
        r is Err ==> (r matches Err(AssemblyError::DanglingReference { .. })),
{
    let no_messages: Vec<(String, Message)> = Vec::new();
    let no_channels: Vec<(String, Channel)> = Vec::new();
    let no_operations: Vec<(String, Operation)> = Vec::new();
    let cm: &Vec<(String, Message)> = match &spec.components {
        Some(c) => match &c.messages {
            Some(v) => v,
            None => &no_messages,
        },
        None => &no_messages,
    };
    let chans: &Vec<(String, Channel)> = match &spec.channels {
        Some(v) => v,
        None => &no_channels,
    };
    let ops: &Vec<(String, Operation)> = match &spec.operations {
        Some(v) => v,
        None => &no_operations,
    };
    assert(cm@ == component_messages(*spec));
    assert(chans@ == channel_entries(*spec));
    assert(ops@ == operation_entries(*spec));
    let mut i: usize = 0;
    while i < chans.len()
        invariant
            0 <= i <= chans@.len(),
            cm@ == component_messages(*spec),
            chans@ == channel_entries(*spec),
            forall|p: int, j: int|
                0 <= p < i && 0 <= j < channel_messages(chans@[p].1).len() ==> message_ref_resolves(
                    (#[trigger] channel_messages(chans@[p].1)[j]).1,
                    cm@,
                ),
        decreases chans@.len() - i,
    {
        if let Some(ms) = &chans[i].1.messages {
            let mut j: usize = 0;
            while j < ms.len()
                invariant
                    0 <= i < chans@.len(),
                    0 <= j <= ms@.len(),
                    ms@ == channel_messages(chans@[i as int].1),
                    cm@ == component_messages(*spec),
                    chans@ == channel_entries(*spec),
                    forall|q: int| 0 <= q < j ==> message_ref_resolves((#[trigger] ms@[q]).1, cm@),
                decreases ms@.len() - j,
            {
                if let Some(bad) = check_message_ref(&ms[j].1, cm) {
                    assert(!message_ref_resolves(channel_messages(chans@[i as int].1)[j as int].1, cm@));
                    return Err(AssemblyError::DanglingReference { reference: bad });
                }
                j += 1;
            }
        }
        i += 1;
    }
    let mut i: usize = 0;
    while i < ops.len()
        invariant
            0 <= i <= ops@.len(),
            cm@ == component_messages(*spec),
            chans@ == channel_entries(*spec),
            ops@ == operation_entries(*spec),
            forall|p: int, j: int|
                0 <= p < chans@.len() && 0 <= j < channel_messages(chans@[p].1).len() ==> message_ref_resolves(
                    (#[trigger] channel_messages(chans@[p].1)[j]).1,
                    cm@,
                ),
            forall|p: int| 0 <= p < i ==> channel_ref_resolves((#[trigger] ops@[p]).1.channel, chans@),
            forall|p: int, j: int|
                0 <= p < i && 0 <= j < operation_messages(ops@[p].1).len() ==> message_ref_resolves(
                    #[trigger] operation_messages(ops@[p].1)[j],
                    cm@,
                ),
        decreases ops@.len() - i,
    {
        if !check_channel_ref(&ops[i].1.channel, chans) {
            assert(!channel_ref_resolves(ops@[i as int].1.channel, chans@));
            return Err(AssemblyError::DanglingReference { reference: ops[i].1.channel.reference.clone() });
        }
        if let Some(ms) = &ops[i].1.messages {
            let mut j: usize = 0;
            while j < ms.len()
                invariant
                    0 <= i < ops@.len(),
                    0 <= j <= ms@.len(),
                    ms@ == operation_messages(ops@[i as int].1),
                    cm@ == component_messages(*spec),
                    chans@ == channel_entries(*spec),
                    ops@ == operation_entries(*spec),
                    forall|q: int| 0 <= q < j ==> message_ref_resolves(#[trigger] ms@[q], cm@),
                decreases ms@.len() - j,
            {
                if let Some(bad) = check_message_ref(&ms[j], cm) {
                    assert(!message_ref_resolves(operation_messages(ops@[i as int].1)[j as int], cm@));
                    return Err(AssemblyError::DanglingReference { reference: bad });
                }
                j += 1;
            }
        }
        i += 1;
    }
    if let Some(bad) = check_schemas(spec) {
        return Err(AssemblyError::DanglingReference { reference: bad });
    }
    Ok(())
}

fn schema_path_of(slot: &String) -> (r: String)
    ensures
        r@ == schemas_prefix() + slot@,
{
    let mut p = String::from_str("#/components/schemas/");
    p.append(slot.as_str());
    p
}

fn schema_ref_found(reference: &String, slots: &Vec<(String, Schema)>) -> (r: bool)
    ensures
        r == exists|e: int|
            0 <= e < slots@.len() && reference@ == schemas_prefix() + (#[trigger] slots@[e]).0@,
{
    let mut e: usize = 0;
    while e < slots.len()
        invariant
            0 <= e <= slots@.len(),
            forall|q: int| 0 <= q < e ==> reference@ != schemas_prefix() + (#[trigger] slots@[q]).0@,
        decreases slots@.len() - e,
    {
        let p = schema_path_of(&slots[e].0);
        if p == *reference {
            assert(reference@ == schemas_prefix() + slots@[e as int].0@);
            return true;
        }
        e += 1;
    }
    false
}

fn check_schema_list(v: &Vec<Schema>, slots: &Vec<(String, Schema)>, Ghost(parent): Ghost<Schema>) -> (r: Option<String>)
    requires
        decreases_to!(parent => v@),
    ensures
        r is None <==> forall|i: int| 0 <= i < v@.len() ==> schema_refs_resolve(#[trigger] v@[i], slots@),
    decreases parent, 0int,
{
    let mut i: usize = 0;
    while i < v.len()
        invariant
            0 <= i <= v@.len(),
            forall|q: int| 0 <= q < i ==> schema_refs_resolve(#[trigger] v@[q], slots@),
            decreases_to!(parent => v@),
        decreases v@.len() - i,
    {
        assert(decreases_to!(v@ => v@[i as int]));
        assert(decreases_to!(parent => v@[i as int]));
        if let Some(bad) = check_schema(&v[i], slots) {
            return Some(bad);
        }
        i += 1;
    }
    None
}

/// The first schema reference inside `s` that names no entry of `slots`, if any.
fn check_schema(s: &Schema, slots: &Vec<(String, Schema)>) -> (r: Option<String>)
    ensures
        r is None <==> schema_refs_resolve(*s, slots@),
    decreases *s, 1int,
{
    match s {
        Schema::Reference { reference } => {
            if schema_ref_found(reference, slots) {
                None
            } else {
                Some(reference.clone())
            }
        },
        Schema::Object(o) => {
            if let Some(props) = &o.properties {
                proof {
                    assert(decreases_to!(*s => s->Object_0));
                    assert(decreases_to!(s->Object_0 => s->Object_0.properties));
                    assert(decreases_to!(s->Object_0.properties => s->Object_0.properties->Some_0));
                    assert(decreases_to!(*props => props@));
                    assert(decreases_to!(*s => props@));
                }
                let mut i: usize = 0;
                while i < props.len()
                    invariant
                        0 <= i <= props@.len(),
                        forall|q: int| 0 <= q < i ==> schema_refs_resolve(*(#[trigger] props@[q]).1, slots@),
                        decreases_to!(*s => props@),
                        *s is Object,
                        s->Object_0.properties == Some(*props),
                    decreases props@.len() - i,
                {
                    proof {
                        assert(decreases_to!(props@ => props@[i as int]));
                        assert(decreases_to!(props@[i as int] => props@[i as int].1));
                        assert(decreases_to!(*s => *props@[i as int].1));
                    }
                    if let Some(bad) = check_schema(&props[i].1, slots) {
                        assert(!schema_refs_resolve(*props@[i as int].1, slots@));
                        let ghost so = s->Object_0;
                        assert(so.properties matches Some(pv) && pv@ == props@);
                        assert(!schema_refs_resolve(*s, slots@));
                        return Some(bad);
                    }
                    i += 1;
                }
            }
            if let Some(b) = &o.items {
                if let Some(bad) = check_schema(b, slots) {
                    return Some(bad);
                }
            }
            if let Some(b) = &o.additional_properties {
                if let Some(bad) = check_schema(b, slots) {
                    return Some(bad);
                }
            }
            if let Some(v) = &o.one_of {
                proof {
                    assert(decreases_to!(*s => s->Object_0));
                    assert(decreases_to!(s->Object_0 => s->Object_0.one_of));
                    assert(decreases_to!(s->Object_0.one_of => s->Object_0.one_of->Some_0));
                    assert(decreases_to!(*v => v@));
                    assert(decreases_to!(*s => v@));
                }
                if let Some(bad) = check_schema_list(v, slots, Ghost(*s)) {
                    return Some(bad);
                }
            }
            if let Some(v) = &o.any_of {
                proof {
                    assert(decreases_to!(*s => s->Object_0));
                    assert(decreases_to!(s->Object_0 => s->Object_0.any_of));
                    assert(decreases_to!(s->Object_0.any_of => s->Object_0.any_of->Some_0));
                    assert(decreases_to!(*v => v@));
                    assert(decreases_to!(*s => v@));
                }
                if let Some(bad) = check_schema_list(v, slots, Ghost(*s)) {
                    return Some(bad);
                }
            }
            if let Some(v) = &o.all_of {
                proof {
                    assert(decreases_to!(*s => s->Object_0));
                    assert(decreases_to!(s->Object_0 => s->Object_0.all_of));
                    assert(decreases_to!(s->Object_0.all_of => s->Object_0.all_of->Some_0));
                    assert(decreases_to!(*v => v@));
                    assert(decreases_to!(*s => v@));
                }
                if let Some(bad) = check_schema_list(v, slots, Ghost(*s)) {
                    return Some(bad);
                }
            }
            None
        },
    }
}

fn check_payload(m: &Message, sc: &Vec<(String, Schema)>) -> (r: Option<String>)
    ensures
        r is None <==> payload_resolves(*m, sc@),
{
    match &m.payload {
        Some(p) => check_schema(p, sc),
        None => None,
    }
}

fn check_inline_payload(r: &MessageRef, sc: &Vec<(String, Schema)>) -> (res: Option<String>)
    ensures
        res is None <==> inline_payload_resolves(*r, sc@),
{
    match r {
        MessageRef::Inline(m) => check_payload(m, sc),
        MessageRef::Reference { .. } => None,
    }
}

/// The first schema reference of the document that names no entry of
/// `components.schemas`, if any.
fn check_schemas(spec: &AsyncApiSpec) -> (r: Option<String>)
    ensures
        r is None <==> schemas_resolve(*spec),
{
    let no_messages: Vec<(String, Message)> = Vec::new();
    let no_schemas: Vec<(String, Schema)> = Vec::new();
    let no_channels: Vec<(String, Channel)> = Vec::new();
    let no_operations: Vec<(String, Operation)> = Vec::new();
    let (cm, sc): (&Vec<(String, Message)>, &Vec<(String, Schema)>) = match &spec.components {
        Some(c) => (
            match &c.messages {
                Some(v) => v,
                None => &no_messages,
            },
            match &c.schemas {
                Some(v) => v,
                None => &no_schemas,
            },
        ),
        None => (&no_messages, &no_schemas),
    };
    let chans: &Vec<(String, Channel)> = match &spec.channels {
        Some(v) => v,
        None => &no_channels,
    };
    let ops: &Vec<(String, Operation)> = match &spec.operations {
        Some(v) => v,
        None => &no_operations,
    };
    assert(cm@ == component_messages(*spec));
    assert(sc@ == component_schemas(*spec));
    assert(chans@ == channel_entries(*spec));
    assert(ops@ == operation_entries(*spec));
    let mut i: usize = 0;
    while i < chans.len()
        invariant
            0 <= i <= chans@.len(),
            cm@ == component_messages(*spec),
            sc@ == component_schemas(*spec),
            chans@ == channel_entries(*spec),
            ops@ == operation_entries(*spec),
            forall|p: int, j: int|
                0 <= p < i && 0 <= j < channel_messages(chans@[p].1).len() ==> inline_payload_resolves(
                    (#[trigger] channel_messages(chans@[p].1)[j]).1,
                    sc@,
                ),
        decreases chans@.len() - i,
    {
        if let Some(ms) = &chans[i].1.messages {
            let mut j: usize = 0;
            while j < ms.len()
                invariant
                    0 <= i < chans@.len(),
                    0 <= j <= ms@.len(),
                    ms@ == channel_messages(chans@[i as int].1),
                    cm@ == component_messages(*spec),
                    sc@ == component_schemas(*spec),
                    chans@ == channel_entries(*spec),
                    ops@ == operation_entries(*spec),
                    forall|q: int| 0 <= q < j ==> inline_payload_resolves((#[trigger] ms@[q]).1, sc@),
                decreases ms@.len() - j,
            {
                if let Some(bad) = check_inline_payload(&ms[j].1, sc) {
                    assert(!inline_payload_resolves(channel_messages(chans@[i as int].1)[j as int].1, sc@));
                    return Some(bad);
                }
                j += 1;
            }
        }
        i += 1;
    }
    let mut i: usize = 0;
    while i < ops.len()
        invariant
            0 <= i <= ops@.len(),
            cm@ == component_messages(*spec),
            sc@ == component_schemas(*spec),
            chans@ == channel_entries(*spec),
            ops@ == operation_entries(*spec),
            forall|p: int, j: int|
                0 <= p < chans@.len() && 0 <= j < channel_messages(chans@[p].1).len() ==> inline_payload_resolves(
                    (#[trigger] channel_messages(chans@[p].1)[j]).1,
                    sc@,
                ),
            forall|p: int, j: int|
                0 <= p < i && 0 <= j < operation_messages(ops@[p].1).len() ==> inline_payload_resolves(
                    #[trigger] operation_messages(ops@[p].1)[j],
                    sc@,
                ),
        decreases ops@.len() - i,
    {
        if let Some(ms) = &ops[i].1.messages {
            let mut j: usize = 0;
            while j < ms.len()
                invariant
                    0 <= i < ops@.len(),
                    0 <= j <= ms@.len(),
                    ms@ == operation_messages(ops@[i as int].1),
                    cm@ == component_messages(*spec),
                    sc@ == component_schemas(*spec),
                    chans@ == channel_entries(*spec),
                    ops@ == operation_entries(*spec),
                    forall|q: int| 0 <= q < j ==> inline_payload_resolves(#[trigger] ms@[q], sc@),
                decreases ms@.len() - j,
            {
                if let Some(bad) = check_inline_payload(&ms[j], sc) {
                    assert(!inline_payload_resolves(operation_messages(ops@[i as int].1)[j as int], sc@));
                    return Some(bad);
                }
                j += 1;
            }
        }
        i += 1;
    }
    let mut e: usize = 0;
    while e < cm.len()
        invariant
            0 <= e <= cm@.len(),
            cm@ == component_messages(*spec),
            sc@ == component_schemas(*spec),
            chans@ == channel_entries(*spec),
            ops@ == operation_entries(*spec),
            forall|p: int, j: int|
                0 <= p < chans@.len() && 0 <= j < channel_messages(chans@[p].1).len() ==> inline_payload_resolves(
                    (#[trigger] channel_messages(chans@[p].1)[j]).1,
                    sc@,
                ),
            forall|p: int, j: int|
                0 <= p < ops@.len() && 0 <= j < operation_messages(ops@[p].1).len() ==> inline_payload_resolves(
                    #[trigger] operation_messages(ops@[p].1)[j],
                    sc@,
                ),
            forall|q: int| 0 <= q < e ==> payload_resolves((#[trigger] cm@[q]).1, sc@),
        decreases cm@.len() - e,
    {
        if let Some(bad) = check_payload(&cm[e].1, sc) {
            assert(!payload_resolves(cm@[e as int].1, sc@));
            return Some(bad);
        }
        e += 1;
    }
    let mut e: usize = 0;
    while e < sc.len()
        invariant
            0 <= e <= sc@.len(),
            cm@ == component_messages(*spec),
            sc@ == component_schemas(*spec),
            chans@ == channel_entries(*spec),
            ops@ == operation_entries(*spec),
            forall|p: int, j: int|
                0 <= p < chans@.len() && 0 <= j < channel_messages(chans@[p].1).len() ==> inline_payload_resolves(
                    (#[trigger] channel_messages(chans@[p].1)[j]).1,
                    sc@,
                ),
            forall|p: int, j: int|
                0 <= p < ops@.len() && 0 <= j < operation_messages(ops@[p].1).len() ==> inline_payload_resolves(
                    #[trigger] operation_messages(ops@[p].1)[j],
                    sc@,
                ),
            forall|q: int| 0 <= q < cm@.len() ==> payload_resolves((#[trigger] cm@[q]).1, sc@),
            forall|q: int| 0 <= q < e ==> schema_refs_resolve((#[trigger] sc@[q]).1, sc@),
        decreases sc@.len() - e,
    {
        if let Some(bad) = check_schema(&sc[e].1, sc) {
            assert(!schema_refs_resolve(sc@[e as int].1, sc@));
            return Some(bad);
        }
        e += 1;
    }
    None
}

} // verus!
