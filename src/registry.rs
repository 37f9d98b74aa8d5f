//! The component registry: deduplicates message descriptors by identity key
//! and decides, for each occurrence, between an inline body and a reference.
//!
//! It runs in two passes. While tallying it only counts occurrences of each
//! identity key; once the tally is closed it only interns. A key seen fewer
//! than twice is emitted inline; any other key is stored once, under a slot
//! name, and every occurrence of it becomes the same reference.
use crate::model::{messages_prefix, Message, MessageRef, Schema};
use vstd::prelude::*;
use vstd::string::*;

verus! {

/// A named message with metadata and its payload, as produced for one declared
/// message type. `identity_key` is a fingerprint of the fully resolved payload.
#[derive(Debug)]
pub struct MessageDescriptor {
    pub identity_key: u64,
    pub name: String,
    pub title: Option<String>,
    pub summary: Option<String>,
    pub description: Option<String>,
    pub content_type: Option<String>,
    pub payload: Option<Schema>,
}

/// The errors that abort an assembly.
#[derive(Debug)]
pub enum AssemblyError {
    /// No free slot name was left for a message after the bounded suffixes.
    DuplicateSlotName { name: String },
    /// A reference path that resolves to no entry.
    DanglingReference { reference: String },
    /// An operation names a channel that was not declared.
    UnknownChannel { name: String },
    /// A registry call made in the wrong phase.
    InvalidRegistryState,
}

/// The phase of a registry.
#[derive(Debug, PartialEq, Eq, Structural)]
pub enum RegistryPhase {
    /// Occurrences are being counted.
    Tallying,
    /// The tally is closed; descriptors are being interned.
    Populated,
}

/// The message body that a descriptor stands for.
pub open spec fn message_of(d: MessageDescriptor) -> Message {
    Message {
        name: Some(d.name),
        title: d.title,
        summary: d.summary,
        description: d.description,
        content_type: d.content_type,
        payload: d.payload,
    }
}

/// Number of occurrences of `k` in `s`.
pub open spec fn count_of(s: Seq<u64>, k: u64) -> nat
    decreases s.len(),
{
    if s.len() == 0 {
        0
    } else {
        count_of(s.drop_last(), k) + if s.last() == k { 1nat } else { 0nat }
    }
}

/// The path of a reference to the message stored under `slot`.
pub open spec fn message_path(slot: Seq<char>) -> Seq<char> {
    messages_prefix() + slot
}

/// Slot name a message asks for first: its name, or "message" when that is empty.
pub open spec fn base_slot(d: MessageDescriptor) -> Seq<char> {
    if d.name@.len() == 0 {
        "message"@
    } else {
        d.name@
    }
}

/// The slot names tried for a base name, in order: the base, then three suffixed forms.
pub open spec fn candidate_slot(base: Seq<char>, i: int) -> Seq<char> {
    if i == 0 {
        base
    } else if i == 1 {
        base + "_2"@
    } else if i == 2 {
        base + "_3"@
    } else {
        base + "_4"@
    }
}

pub open spec fn slot_taken(entries: Seq<(String, Message)>, s: Seq<char>) -> bool {
    exists|j: int| 0 <= j < entries.len() && (#[trigger] entries[j]).0@ == s
}

/// The first candidate slot that no entry holds, if any.
pub open spec fn free_slot(entries: Seq<(String, Message)>, base: Seq<char>) -> Option<Seq<char>> {
    if !slot_taken(entries, candidate_slot(base, 0)) {
        Some(candidate_slot(base, 0))
    } else if !slot_taken(entries, candidate_slot(base, 1)) {
        Some(candidate_slot(base, 1))
    } else if !slot_taken(entries, candidate_slot(base, 2)) {
        Some(candidate_slot(base, 2))
    } else if !slot_taken(entries, candidate_slot(base, 3)) {
        Some(candidate_slot(base, 3))
    } else {
        None
    }
}

fn into_message(d: MessageDescriptor) -> (m: Message)
    ensures
        m == message_of(d),
{
    Message {
        name: Some(d.name),
        title: d.title,
        summary: d.summary,
        description: d.description,
        content_type: d.content_type,
        payload: d.payload,
    }
}

/// Occurrence counts and the stored components of one assembly.
#[derive(Debug)]
pub struct ComponentRegistry {
    phase: RegistryPhase,
    tallied: Vec<u64>,
    keys: Vec<u64>,
    entries: Vec<(String, Message)>,
}

impl ComponentRegistry {
    pub closed spec fn phase(&self) -> RegistryPhase {
        self.phase
    }

    /// Every identity key counted so far, in order.
    pub closed spec fn tallied(&self) -> Seq<u64> {
        self.tallied@
    }

    /// The identity key of each stored entry.
    pub closed spec fn keys(&self) -> Seq<u64> {
        self.keys@
    }

    /// The stored entries: slot name and message.
    pub closed spec fn entries(&self) -> Seq<(String, Message)> {
        self.entries@
    }

    /// One entry per stored key, keys and slot names unique, and only keys
    /// that occur at least twice are stored.
    pub open spec fn wf(&self) -> bool {
        &&& self.keys().len() == self.entries().len()
        &&& forall|i: int, j: int|
            0 <= i < j < self.keys().len() ==> self.keys()[i] != self.keys()[j]
        &&& forall|i: int, j: int|
            0 <= i < j < self.entries().len() ==> self.entries()[i].0@ != self.entries()[j].0@
        &&& forall|i: int|
            0 <= i < self.keys().len() ==> count_of(self.tallied(), #[trigger] self.keys()[i]) >= 2
    }

    /// The slot name stored for key `k` (meaningful when `k` is stored).
    pub open spec fn slot_for(&self, k: u64) -> Seq<char> {
        self.entries()[choose|i: int| 0 <= i < self.keys().len() && self.keys()[i] == k].0@
    }

    /// An empty registry, ready to tally.
    pub fn new() -> (r: Self)
        ensures
            r.wf(),
            r.phase() == RegistryPhase::Tallying,
            r.tallied() == Seq::<u64>::empty(),
            r.keys() == Seq::<u64>::empty(),
            r.entries() == Seq::<(String, Message)>::empty(),
    {
        ComponentRegistry {
            phase: RegistryPhase::Tallying,
            tallied: Vec::new(),
            keys: Vec::new(),
            entries: Vec::new(),
        }
    }

    /// Counts one occurrence of `key`; refused once the tally is closed.
    pub fn tally(&mut self, key: u64) -> (r: Result<(), AssemblyError>)
        requires
            old(self).wf(),
        ensures
            final(self).wf(),
            final(self).phase() == old(self).phase(),
            final(self).keys() == old(self).keys(),
            final(self).entries() == old(self).entries(),
            old(self).phase() == RegistryPhase::Tallying ==> r is Ok && final(self).tallied()
                == old(self).tallied().push(key),
            old(self).phase() != RegistryPhase::Tallying ==> (r matches Err(
                AssemblyError::InvalidRegistryState,
            )) && final(self).tallied() == old(self).tallied(),
    {
        if self.phase != RegistryPhase::Tallying {
            return Err(AssemblyError::InvalidRegistryState);
        }
        proof {
            assert forall|k: u64| count_of(self.tallied@.push(key), k) >= count_of(self.tallied@, k) by {
                assert(self.tallied@.push(key).drop_last() == self.tallied@);
            }
        }
        self.tallied.push(key);
        Ok(())
    }

    /// Closes the tally; from here on only interning is accepted.
    pub fn close_tally(&mut self) -> (r: Result<(), AssemblyError>)
        requires
            old(self).wf(),
        ensures
            final(self).wf(),
            final(self).tallied() == old(self).tallied(),
            final(self).keys() == old(self).keys(),
            final(self).entries() == old(self).entries(),
            old(self).phase() == RegistryPhase::Tallying ==> r is Ok && final(self).phase()
                == RegistryPhase::Populated,
            old(self).phase() != RegistryPhase::Tallying ==> (r matches Err(
                AssemblyError::InvalidRegistryState,
            )) && final(self).phase() == old(self).phase(),
    {
        if self.phase != RegistryPhase::Tallying {
            return Err(AssemblyError::InvalidRegistryState);
        }
        self.phase = RegistryPhase::Populated;
        Ok(())
    }

    /// Number of tallied occurrences of `key`.
    pub fn count(&self, key: u64) -> (r: usize)
        ensures
            r == count_of(self.tallied(), key),
    {
        let mut n: usize = 0;
        let mut i: usize = 0;
        while i < self.tallied.len()
            invariant
                0 <= i <= self.tallied@.len(),
                n == count_of(self.tallied@.take(i as int), key),
                n <= i,
            decreases self.tallied@.len() - i,
        {
            assert(self.tallied@.take(i + 1).drop_last() == self.tallied@.take(i as int));
            if self.tallied[i] == key {
                n += 1;
            }
            i += 1;
        }
        assert(self.tallied@.take(self.tallied@.len() as int) == self.tallied@);
        n
    }

    fn find_key(&self, key: u64) -> (r: Option<usize>)
        ensures
            match r {
                Some(i) => i < self.keys().len() && self.keys()[i as int] == key,
                None => !self.keys().contains(key),
            },
    {
        let mut i: usize = 0;
        while i < self.keys.len()
            invariant
                0 <= i <= self.keys@.len(),
                forall|j: int| 0 <= j < i ==> self.keys@[j] != key,
            decreases self.keys@.len() - i,
        {
            if self.keys[i] == key {
                return Some(i);
            }
            i += 1;
        }
        None
    }

    fn is_taken(&self, s: &String) -> (r: bool)
        ensures
            r == slot_taken(self.entries(), s@),
    {
        let mut i: usize = 0;
        while i < self.entries.len()
            invariant
                0 <= i <= self.entries@.len(),
                forall|j: int| 0 <= j < i ==> (#[trigger] self.entries@[j]).0@ != s@,
            decreases self.entries@.len() - i,
        {
            if self.entries[i].0 == *s {
                return true;
            }
            i += 1;
        }
        false
    }

    /// The first free candidate slot for `base`.
    fn pick_slot(&self, base: &String) -> (r: Option<String>)
        ensures
            match r {
                Some(s) => free_slot(self.entries(), base@) == Some(s@),
                None => free_slot(self.entries(), base@) is None,
            },
    {
        let c0 = base.clone();
        if !self.is_taken(&c0) {
            return Some(c0);
        }
        let c1 = base.clone().concat("_2");
        if !self.is_taken(&c1) {
            return Some(c1);
        }
        let c2 = base.clone().concat("_3");
        if !self.is_taken(&c2) {
            return Some(c2);
        }
        let c3 = base.clone().concat("_4");
        if !self.is_taken(&c3) {
            return Some(c3);
        }
        None
    }

    proof fn lemma_slot_for(&self, i: int)
        requires
            self.wf(),
            0 <= i < self.keys().len(),
        ensures
            self.slot_for(self.keys()[i]) == self.entries()[i].0@,
    {
        let k = self.keys()[i];
        let j = choose|j: int| 0 <= j < self.keys().len() && self.keys()[j] == k;
        if j < i {
            assert(self.keys()[j] != self.keys()[i]);
        } else if i < j {
            assert(self.keys()[i] != self.keys()[j]);
        }
    }

    /// Interns one occurrence of a descriptor. A key tallied fewer than twice
    /// gives the message inline; any other key gives the reference to its
    /// entry, stored on its first occurrence under the first free candidate
    /// slot. Refused before the tally is closed.
    pub fn intern_message(&mut self, d: MessageDescriptor) -> (r: Result<MessageRef, AssemblyError>)
        requires
            old(self).wf(),
        ensures
            final(self).wf(),
            final(self).phase() == old(self).phase(),
            final(self).tallied() == old(self).tallied(),
            old(self).keys().len() <= final(self).keys().len(),
            forall|i: int|
                0 <= i < old(self).keys().len() ==> final(self).keys()[i] == old(self).keys()[i]
                    && final(self).entries()[i] == old(self).entries()[i],
            old(self).phase() != RegistryPhase::Populated ==> (r matches Err(
                AssemblyError::InvalidRegistryState,
            )) && *final(self) == *old(self),
            old(self).phase() == RegistryPhase::Populated && count_of(
                old(self).tallied(),
                d.identity_key,
            ) < 2 ==> (r matches Ok(MessageRef::Inline(m)) && *m == message_of(d)) && *final(self)
                == *old(self),
            old(self).phase() == RegistryPhase::Populated && count_of(
                old(self).tallied(),
                d.identity_key,
            ) >= 2 && old(self).keys().contains(d.identity_key) ==> r is Ok && *final(self)
                == *old(self),
            old(self).phase() == RegistryPhase::Populated && count_of(
                old(self).tallied(),
                d.identity_key,
            ) >= 2 && !old(self).keys().contains(d.identity_key) ==> match free_slot(
                old(self).entries(),
                base_slot(d),
            ) {
                None => (r matches Err(AssemblyError::DuplicateSlotName { name }) && name@
                    == base_slot(d)) && *final(self) == *old(self),
                Some(s) => r is Ok && final(self).keys() == old(self).keys().push(d.identity_key)
                    && final(self).entries().len() == old(self).entries().len() + 1
                    && final(self).entries().last().0@ == s
                    && final(self).entries().last().1 == message_of(d),
            },
            r is Err ==> *final(self) == *old(self),
            old(self).phase() == RegistryPhase::Populated && r is Err ==> (r matches Err(
                AssemblyError::DuplicateSlotName { .. },
            )),
            r is Ok && old(self).phase() == RegistryPhase::Populated && count_of(
                old(self).tallied(),
                d.identity_key,
            ) >= 2 ==> final(self).keys().contains(d.identity_key) && (r matches Ok(
                MessageRef::Reference { reference },
            ) && reference@ == message_path(final(self).slot_for(d.identity_key))),
    {
        if self.phase != RegistryPhase::Populated {
            return Err(AssemblyError::InvalidRegistryState);
        }
        let key = d.identity_key;
        if self.count(key) < 2 {
            let m = into_message(d);
            return Ok(MessageRef::Inline(Box::new(m)));
        }
        let slot = match self.find_key(key) {
            Some(i) => {
                proof {
                    self.lemma_slot_for(i as int);
                }
                self.entries[i].0.clone()
            },
            None => {
                let base = if d.name == String::new() {
                    String::from_str("message")
                } else {
                    d.name.clone()
                };
                proof {
                    if d.name@.len() == 0 {
                        assert(d.name@ =~= Seq::<char>::empty());
                    }
                    assert(base@ == base_slot(d));
                }
                let picked = self.pick_slot(&base);
                let s = match picked {
                    Some(s) => s,
                    None => {
                        return Err(AssemblyError::DuplicateSlotName { name: base });
                    },
                };
                let ghost old_self = *self;
                let m = into_message(d);
                self.keys.push(key);
                self.entries.push((s.clone(), m));
                proof {
                    assert(self.keys@.last() == key);
                    assert forall|i: int, j: int|
                        0 <= i < j < self.entries@.len() implies self.entries@[i].0@
                        != self.entries@[j].0@ by {
                        if j == self.entries@.len() - 1 {
                            assert(old_self.entries@[i] == self.entries@[i]);
                            assert(!slot_taken(old_self.entries@, s@));
                        } else {
                            assert(old_self.entries@[i] == self.entries@[i]);
                            assert(old_self.entries@[j] == self.entries@[j]);
                        }
                    }
                    assert forall|i: int| 0 <= i < self.keys@.len() implies count_of(
                        self.tallied@,
                        #[trigger] self.keys@[i],
                    ) >= 2 by {
                        if i < old_self.keys@.len() {
                            assert(old_self.keys@[i] == self.keys@[i]);
                        }
                    }
                    assert forall|i: int, j: int|
                        0 <= i < j < self.keys@.len() implies self.keys@[i] != self.keys@[j] by {
                        if j == self.keys@.len() - 1 {
                            assert(old_self.keys@[i] == self.keys@[i]);
                        }
                    }
                    self.lemma_slot_for(self.keys@.len() - 1);
                }
                s
            },
        };
        let mut path = String::from_str("#/components/messages/");
        path.append(slot.as_str());
        Ok(MessageRef::Reference { reference: path })
    }


    /// Seals the registry: hands over its entries in the order they were stored.
    pub fn seal(self) -> (r: Vec<(String, Message)>)
        ensures
            r@ == self.entries(),
    {
        self.entries
    }

}

} // verus!
