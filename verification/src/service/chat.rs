//! A player's chat inbox: the last few messages, each numbered once it has
//! been sent to the player, so that a report can name the message.
use crate::ids::PlayerAlias;
use arrayvec::ArrayVec;
use std::sync::Arc;
use vstd::prelude::*;

verus! {

/// How many messages an inbox keeps.
pub const INBOX_SLOTS: usize = 10;

/// A chat message.
#[derive(Debug)]
pub struct MessageDto {
    /// The sender's alias, if any.
    pub alias: Option<PlayerAlias>,
    pub text: String,
}

/// Who sent a message, by a number that stands for the sender.
#[derive(Copy, Clone, Debug, PartialEq, Eq, Structural)]
pub struct MessageAttribution(pub u64);

/// A message in an inbox.
#[derive(Debug)]
pub struct ChatInboxSlot {
    pub message: Arc<MessageDto>,
    pub attribution: Option<MessageAttribution>,
    /// The number it was sent under, once sent.
    pub message_number: Option<u8>,
}

/// The slots that an inbox's vector holds, in order.
pub uninterp spec fn inbox_slots(slots: ArrayVec<ChatInboxSlot, INBOX_SLOTS>) -> Seq<ChatInboxSlot>;

/// An empty vector of slots. Trusted: `ArrayVec::new` makes an empty vector.
#[verifier::external_body]
fn new_slots() -> (r: ArrayVec<ChatInboxSlot, INBOX_SLOTS>)
    ensures
        inbox_slots(r) == Seq::<ChatInboxSlot>::empty(),
{
    ArrayVec::new()
}

/// How many slots are used. Trusted: `ArrayVec::len` counts the elements,
/// which never exceed the capacity.
#[verifier::external_body]
fn slots_len(slots: &ArrayVec<ChatInboxSlot, INBOX_SLOTS>) -> (r: usize)
    ensures
        r == inbox_slots(*slots).len(),
        r <= INBOX_SLOTS,
{
    slots.len()
}

/// Drops the oldest slot. Trusted: `ArrayVec::remove` takes out the element
/// at the index and shifts the rest down (it panics on a bad index, which
/// `requires` rules out).
#[verifier::external_body]
fn remove_first(slots: &mut ArrayVec<ChatInboxSlot, INBOX_SLOTS>)
    requires
        inbox_slots(*old(slots)).len() > 0,
    ensures
        inbox_slots(*final(slots)) == inbox_slots(*old(slots)).drop_first(),
{
    slots.remove(0);
}

/// Appends a slot. Trusted: `ArrayVec::push` appends the element (it
/// panics when full, which `requires` rules out).
#[verifier::external_body]
fn push_slot(slots: &mut ArrayVec<ChatInboxSlot, INBOX_SLOTS>, slot: ChatInboxSlot)
    requires
        inbox_slots(*old(slots)).len() < INBOX_SLOTS,
    ensures
        inbox_slots(*final(slots)) == inbox_slots(*old(slots)).push(slot),
{
    slots.push(slot)
}

/// The slot at position `i`. Trusted: indexing the elements (as a slice)
/// gives the element at that position.
#[verifier::external_body]
fn slot_at(slots: &ArrayVec<ChatInboxSlot, INBOX_SLOTS>, i: usize) -> (r: &ChatInboxSlot)
    requires
        i < inbox_slots(*slots).len(),
    ensures
        *r == inbox_slots(*slots)[i as int],
{
    &slots[i]
}

/// Sets the number of the slot at position `i`. Trusted: writing a field
/// of an element (through the mutable slice) changes that field only.
#[verifier::external_body]
fn set_number(slots: &mut ArrayVec<ChatInboxSlot, INBOX_SLOTS>, i: usize, number: Option<u8>)
    requires
        i < inbox_slots(*old(slots)).len(),
    ensures
        inbox_slots(*final(slots)).len() == inbox_slots(*old(slots)).len(),
        forall|j: int|
            0 <= j < inbox_slots(*old(slots)).len() && j != i ==> #[trigger] inbox_slots(*final(slots))[j]
                == inbox_slots(*old(slots))[j],
        inbox_slots(*final(slots))[i as int].message == inbox_slots(*old(slots))[i as int].message,
        inbox_slots(*final(slots))[i as int].attribution == inbox_slots(*old(slots))[i as int].attribution,
        inbox_slots(*final(slots))[i as int].message_number == number,
{
    slots[i].message_number = number;
}

/// Another handle on the same message. Trusted: `Arc::clone` makes a
/// pointer to the same value.
#[verifier::external_body]
fn share_message(message: &Arc<MessageDto>) -> (r: Arc<MessageDto>)
    ensures
        r == *message,
{
    Arc::clone(message)
}

/// How many of the first `i` slots are still unsent.
pub open spec fn unsent_before(slots: Seq<ChatInboxSlot>, i: int) -> nat
    decreases i,
{
    if i <= 0 {
        0
    } else {
        unsent_before(slots, i - 1) + if slots[i - 1].message_number is None {
            1nat
        } else {
            0nat
        }
    }
}

proof fn lemma_unsent_grows(slots: Seq<ChatInboxSlot>, j: int, i: int)
    requires
        0 <= j < i,
        slots[j].message_number is None,
    ensures
        unsent_before(slots, j) < unsent_before(slots, i),
    decreases i,
{
    if j < i - 1 {
        lemma_unsent_grows(slots, j, i - 1);
    }
}

/// `n` steps after `start`, wrapping after 255.
pub open spec fn number_after(start: u8, n: int) -> u8 {
    ((start + n) % 256) as u8
}

/// The last messages a player received, at most `INBOX_SLOTS`.
pub struct ChatInbox {
    slots: ArrayVec<ChatInboxSlot, INBOX_SLOTS>,
    next_message_number: u8,
}

/// The mathematical value of an inbox.
pub struct ChatInboxView {
    pub slots: Seq<ChatInboxSlot>,
    /// The number the next sent message gets.
    pub next_message_number: u8,
}

impl View for ChatInbox {
    type V = ChatInboxView;

    closed spec fn view(&self) -> ChatInboxView {
        ChatInboxView { slots: inbox_slots(self.slots), next_message_number: self.next_message_number }
    }
}

impl Default for ChatInbox {
    /// An empty inbox whose first message will be number 0.
    fn default() -> (r: Self)
        ensures
            r@.slots == Seq::<ChatInboxSlot>::empty(),
            r@.next_message_number == 0,
    {
        ChatInbox { slots: new_slots(), next_message_number: 0 }
    }
}

impl ChatInbox {
    /// Adds an unsent message, dropping the oldest when the inbox is full.
    pub fn write(&mut self, message: Arc<MessageDto>, attribution: Option<MessageAttribution>)
        ensures
            final(self)@.next_message_number == old(self)@.next_message_number,
            final(self)@.slots == (if old(self)@.slots.len() >= INBOX_SLOTS {
                old(self)@.slots.drop_first()
            } else {
                old(self)@.slots
            }).push(ChatInboxSlot { message, attribution, message_number: None }),
    {
        if slots_len(&self.slots) >= INBOX_SLOTS {
            remove_first(&mut self.slots);
        }
        push_slot(&mut self.slots, ChatInboxSlot { message, attribution, message_number: None });
    }

    /// Whether every message was sent.
    pub fn read_is_empty(&self) -> (r: bool)
        ensures
            r == forall|i: int| 0 <= i < self@.slots.len() ==> (#[trigger] self@.slots[i]).message_number is Some,
    {
        let n = slots_len(&self.slots);
        let mut i: usize = 0;
        while i < n
            invariant
                n == inbox_slots(self.slots).len(),
                i <= n,
                forall|j: int| 0 <= j < i ==> (#[trigger] inbox_slots(self.slots)[j]).message_number is Some,
            decreases n - i,
        {
            if slot_at(&self.slots, i).message_number.is_none() {
                return false;
            }
            i = i + 1;
        }
        true
    }

    /// Sends the unsent messages, oldest first, numbering them on from the
    /// next message number (wrapping after 255).
    pub fn read(&mut self) -> (r: Vec<(u8, Arc<MessageDto>)>)
        ensures
            final(self)@.slots.len() == old(self)@.slots.len(),
            final(self)@.next_message_number == number_after(
                old(self)@.next_message_number,
                unsent_before(old(self)@.slots, old(self)@.slots.len() as int) as int,
            ),
            forall|i: int|
                0 <= i < old(self)@.slots.len() ==> {
                    let s = old(self)@.slots[i];
                    let t = #[trigger] final(self)@.slots[i];
                    &&& t.message == s.message
                    &&& t.attribution == s.attribution
                    &&& t.message_number == if s.message_number is Some {
                        s.message_number
                    } else {
                        Some(number_after(old(self)@.next_message_number, unsent_before(old(self)@.slots, i) as int))
                    }
                },
            r@.len() == unsent_before(old(self)@.slots, old(self)@.slots.len() as int),
            forall|i: int|
                0 <= i < old(self)@.slots.len() && old(self)@.slots[i].message_number is None ==> r@[unsent_before(
                    old(self)@.slots,
                    i,
                ) as int] == (
                    number_after(old(self)@.next_message_number, unsent_before(old(self)@.slots, i) as int),
                    old(self)@.slots[i].message,
                ),
    {
        let ghost s0 = self@.slots;
        let ghost start = self.next_message_number;
        let n = slots_len(&self.slots);
        let mut out: Vec<(u8, Arc<MessageDto>)> = Vec::new();
        let mut i: usize = 0;
        while i < n
            invariant
                n == s0.len(),
                i <= n,
                inbox_slots(self.slots).len() == n,
                self.next_message_number == number_after(start, unsent_before(s0, i as int) as int),
                out@.len() == unsent_before(s0, i as int),
                forall|j: int| i <= j < n ==> #[trigger] inbox_slots(self.slots)[j] == s0[j],
                forall|j: int|
                    0 <= j < i ==> {
                        let s = s0[j];
                        let t = #[trigger] inbox_slots(self.slots)[j];
                        &&& t.message == s.message
                        &&& t.attribution == s.attribution
                        &&& t.message_number == if s.message_number is Some {
                            s.message_number
                        } else {
                            Some(number_after(start, unsent_before(s0, j) as int))
                        }
                    },
                forall|j: int|
                    0 <= j < i && s0[j].message_number is None ==> out@[unsent_before(s0, j) as int] == (
                        number_after(start, unsent_before(s0, j) as int),
                        s0[j].message,
                    ),
            decreases n - i,
        {
            let unsent = slot_at(&self.slots, i).message_number.is_none();
            if unsent {
                let number = self.next_message_number;
                let message = share_message(&slot_at(&self.slots, i).message);
                let ghost before = out@;
                out.push((number, message));
                set_number(&mut self.slots, i, Some(number));
                self.next_message_number = number.wrapping_add(1);
                proof {
                    assert(unsent_before(s0, i + 1) == unsent_before(s0, i as int) + 1);
                    assert forall|j: int|
                        0 <= j < i + 1 && s0[j].message_number is None implies out@[unsent_before(s0, j) as int] == (
                            number_after(start, unsent_before(s0, j) as int),
                            s0[j].message,
                        ) by {
                        if j < i {
                            lemma_unsent_grows(s0, j, i as int);
                            assert(out@[unsent_before(s0, j) as int] == before[unsent_before(s0, j) as int]);
                        }
                    }
                }
            } else {
                proof {
                    assert(unsent_before(s0, i + 1) == unsent_before(s0, i as int));
                }
            }
            i = i + 1;
        }
        out
    }

    /// Marks every message unsent, so that all are sent again.
    pub fn mark_unread(&mut self)
        ensures
            final(self)@.next_message_number == old(self)@.next_message_number,
            final(self)@.slots.len() == old(self)@.slots.len(),
            forall|i: int|
                0 <= i < old(self)@.slots.len() ==> {
                    let s = old(self)@.slots[i];
                    let t = #[trigger] final(self)@.slots[i];
                    &&& t.message == s.message
                    &&& t.attribution == s.attribution
                    &&& t.message_number is None
                },
    {
        let ghost s0 = self@.slots;
        let n = slots_len(&self.slots);
        let mut i: usize = 0;
        while i < n
            invariant
                n == s0.len(),
                i <= n,
                inbox_slots(self.slots).len() == n,
                self.next_message_number == old(self).next_message_number,
                forall|j: int| i <= j < n ==> #[trigger] inbox_slots(self.slots)[j] == s0[j],
                forall|j: int|
                    0 <= j < i ==> {
                        let s = s0[j];
                        let t = #[trigger] inbox_slots(self.slots)[j];
                        &&& t.message == s.message
                        &&& t.attribution == s.attribution
                        &&& t.message_number is None
                    },
            decreases n - i,
        {
            set_number(&mut self.slots, i, None);
            i = i + 1;
        }
    }

    /// Who sent the message sent under `message_number`: the attribution of
    /// the first slot with that number, if any.
    pub fn attribute(&self, message_number: u8) -> (r: Option<MessageAttribution>)
        ensures
            (exists|i: int|
                0 <= i < self@.slots.len() && self@.slots[i].message_number == Some(message_number)) ==> r == self@.slots[
                choose|i: int|
                    #![trigger self@.slots[i]]
                    0 <= i < self@.slots.len() && self@.slots[i].message_number == Some(message_number) && forall|j: int|
                        0 <= j < i ==> self@.slots[j].message_number != Some(message_number)].attribution,
            !(exists|i: int|
                0 <= i < self@.slots.len() && self@.slots[i].message_number == Some(message_number)) ==> r is None,
    {
        let n = slots_len(&self.slots);
        let mut i: usize = 0;
        while i < n
            invariant
                n == inbox_slots(self.slots).len(),
                i <= n,
                forall|j: int| 0 <= j < i ==> inbox_slots(self.slots)[j].message_number != Some(message_number),
            decreases n - i,
        {
            let slot = slot_at(&self.slots, i);
            if slot.message_number == Some(message_number) {
                proof {
                    let s = inbox_slots(self.slots);
                    let c = choose|c: int|
                        #![trigger s[c]]
                        0 <= c < s.len() && s[c].message_number == Some(message_number) && forall|j: int|
                            0 <= j < c ==> s[j].message_number != Some(message_number);
                    assert(0 <= i < s.len() && s[i as int].message_number == Some(message_number) && forall|j: int|
                        0 <= j < i ==> s[j].message_number != Some(message_number));
                    if c < i {
                    } else if c > i {
                        assert(s[i as int].message_number != Some(message_number));
                    }
                }
                return slot.attribution;
            }
            i = i + 1;
        }
        None
    }
}

} // verus!
