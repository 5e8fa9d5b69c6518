//! Monitors: data behind a lock together with named condition variables, and
//! the bounded buffer of messages that is built on one.

use crate::sync::{buffer_condition_keys, new_condvar, new_mutex, type_key};
use parking_lot::{Condvar, Mutex};
use std::any::TypeId;
use std::collections::hash_map::RandomState;
use std::collections::{HashMap, VecDeque};
use vstd::std_specs::hash::{builds_valid_hashers, obeys_key_model};
use vstd::prelude::*;
use vstd::string::StringExecFns;

verus! {

/// The map from keys to condition variables that registering `pairs` in order
/// gives: where a key occurs twice, the later pair wins.
pub open spec fn keyed(pairs: Seq<(TypeId, Condvar)>) -> Map<TypeId, Condvar>
    decreases pairs.len(),
{
    if pairs.len() == 0 {
        Map::empty()
    } else {
        keyed(pairs.drop_last()).insert(pairs.last().0, pairs.last().1)
    }
}

/// Collects the data and the condition variables of a monitor before it is built.
pub struct MonitorBuilder<T> {
    data: T,
    conditions: Vec<(TypeId, Condvar)>,
}

/// Data behind a mutex together with one condition variable per registered
/// marker type.
#[verifier::reject_recursive_types(T)]
pub struct Monitor<T> {
    data: Mutex<T>,
    conditions: HashMap<TypeId, Condvar>,
    /// For a monitor made by a builder: the data its mutex was made from and
    /// the conditions that were registered, in order.
    built_from: Ghost<Option<(T, Seq<(TypeId, Condvar)>)>>,
}

impl<T> MonitorBuilder<T> {
    /// The data that the monitor will guard.
    pub closed spec fn spec_data(&self) -> T {
        self.data
    }

    /// The registered conditions, in the order of registration.
    pub closed spec fn registered(&self) -> Seq<(TypeId, Condvar)> {
        self.conditions@
    }

    pub fn new(data: T) -> (builder: Self)
        ensures
            builder.spec_data() == data,
            builder.registered() == Seq::<(TypeId, Condvar)>::empty(),
    {
        Self { data, conditions: Vec::new() }
    }

    /// Registers a condition variable under the marker type `K`.
    pub fn with_condition<K: ?Sized + 'static>(self) -> (builder: Self)
        ensures
            builder.spec_data() == self.spec_data(),
            builder.registered().len() == self.registered().len() + 1,
            builder.registered().drop_last() == self.registered(),
    {
        self.with_condition_key(type_key::<K>())
    }

    /// Registers a condition variable under the key `key`.
    pub fn with_condition_key(self, key: TypeId) -> (builder: Self)
        ensures
            builder.spec_data() == self.spec_data(),
            builder.registered().len() == self.registered().len() + 1,
            builder.registered().drop_last() == self.registered(),
            builder.registered().last().0 == key,
    {
        let mut this = self;
        this.conditions.push((key, new_condvar()));
        proof {
            assert(this.conditions@.drop_last() =~= self.conditions@);
        }
        this
    }

    /// Puts the data behind a mutex and gathers the conditions by key; where
    /// a key was registered twice, the later condition variable is kept.
    /// What the map holds is stated where the map's contract says anything,
    /// that is where `TypeId` keys obey vstd's key model.
    pub fn build(self) -> (monitor: Monitor<T>)
        ensures
            monitor.spec_built_from() == Some((self.spec_data(), self.registered())),
            self.registered().len() == 0 ==> monitor.spec_conditions()@ == Map::<
                TypeId,
                Condvar,
            >::empty(),
            obeys_key_model::<TypeId>() && builds_valid_hashers::<RandomState>()
                ==> monitor.spec_conditions()@ == keyed(self.registered()),
    {
        let mut conditions: HashMap<TypeId, Condvar> = HashMap::new();
        let pairs = self.conditions;
        for pair in it: pairs.into_iter()
            invariant
                it.seq() == self.registered(),
                self.registered().len() == 0 ==> conditions@ == Map::<TypeId, Condvar>::empty(),
                obeys_key_model::<TypeId>() && builds_valid_hashers::<RandomState>()
                    ==> conditions@ == keyed(self.registered().take(it.index() as int)),
        {
            let ghost prefix = self.registered().take(it.index() as int);
            proof {
                assert(pair == self.registered()[it.index() as int]);
                assert(self.registered().take(it.index() + 1) =~= prefix.push(pair));
                assert(prefix.push(pair).drop_last() =~= prefix);
            }
            conditions.insert(pair.0, pair.1);
        }
        proof {
            assert(self.registered().take(self.registered().len() as int) =~= self.registered());
        }
        let ghost origin = (self.data, self.registered());
        Monitor {
            data: new_mutex(self.data),
            conditions,
            built_from: Ghost(Some(origin)),
        }
    }
}

impl<T> Monitor<T> {
    pub closed spec fn spec_data(&self) -> Mutex<T> {
        self.data
    }

    pub closed spec fn spec_conditions(&self) -> HashMap<TypeId, Condvar> {
        self.conditions
    }

    /// For a monitor made by `MonitorBuilder::build`, the data its mutex was
    /// made from and the conditions registered with the builder; `None` for
    /// a monitor assembled from ready parts.
    pub closed spec fn spec_built_from(&self) -> Option<(T, Seq<(TypeId, Condvar)>)> {
        self.built_from@
    }

    pub fn new(data: Mutex<T>, conditions: HashMap<TypeId, Condvar>) -> (monitor: Self)
        ensures
            monitor.spec_data() == data,
            monitor.spec_conditions() == conditions,
            monitor.spec_built_from() is None,
    {
        Self { data, conditions, built_from: Ghost(None) }
    }

    /// The mutex that guards the data.
    pub fn data(&self) -> (data: &Mutex<T>)
        ensures
            *data == self.spec_data(),
    {
        &self.data
    }

    /// The condition variables, keyed by the identifier of their marker type.
    pub fn conditions(&self) -> (conditions: &HashMap<TypeId, Condvar>)
        ensures
            *conditions == self.spec_conditions(),
    {
        &self.conditions
    }
}

/// Marker under which a bounded buffer signals that it holds a message.
#[derive(Debug, Clone, Copy, PartialEq, Eq, Hash)]
pub struct NotEmpty;

/// Marker under which a bounded buffer signals that it has room for a message.
#[derive(Debug, Clone, Copy, PartialEq, Eq, Hash)]
pub struct NotFull;

/// A message passed through a bounded buffer.
#[derive(Debug)]
pub struct Msg {
    pub content: String,
}

impl Clone for Msg {
    fn clone(&self) -> (copy: Self)
        ensures
            copy == *self,
    {
        Msg { content: self.content.clone() }
    }
}

impl Msg {
    pub fn new(content: String) -> (msg: Self)
        ensures
            msg.content == content,
    {
        Self { content }
    }
}

/// The content of the message that tells a consumer to stop.
pub open spec fn finish_marker() -> Seq<char> {
    seq!['F', 'i', 'n', 'i', 's', 'h']
}

/// What a consumer that polls a bounded buffer does with what it got.
pub enum Collected {
    /// The stop message arrived: stop consuming.
    Finished,
    /// An ordinary message arrived: hand it on.
    Received(Msg),
    /// Nothing was there: yield and poll again.
    Idle,
}

/// Decides what a consumer does with the result of one poll of a buffer:
/// stop on the message whose content is `Finish`, hand on any other message,
/// and idle when nothing arrived.
pub fn collect_step(received: Option<Msg>) -> (action: Collected)
    ensures
        match received {
            None => action is Idle,
            Some(msg) => if msg.content@ == finish_marker() {
                action is Finished
            } else {
                action == Collected::Received(msg)
            },
        },
{
    match received {
        None => Collected::Idle,
        Some(msg) => {
            let marker = String::from_str("Finish");
            proof {
                reveal_strlit("Finish");
                assert(marker@ =~= finish_marker());
            }
            if msg.content == marker {
                Collected::Finished
            } else {
                Collected::Received(msg)
            }
        },
    }
}

/// The contents of a bounded buffer: the messages in the order in which they
/// arrived, never more of them than the capacity.
pub struct BufferState {
    items: VecDeque<Msg>,
    capacity: usize,
}

impl BufferState {
    #[verifier::type_invariant]
    spec fn within_capacity(self) -> bool {
        self.items@.len() <= self.capacity
    }

    /// The messages held, oldest first.
    pub closed spec fn messages(&self) -> Seq<Msg> {
        self.items@
    }

    /// The buffer holds no more messages than its capacity. Every value of
    /// this type satisfies it; the methods state it of what they hand back.
    pub closed spec fn within_limit(&self) -> bool {
        self.items@.len() <= self.capacity
    }

    /// The largest number of messages the buffer may hold.
    pub closed spec fn spec_capacity(&self) -> nat {
        self.capacity as nat
    }

    /// An empty buffer with room for `capacity` messages.
    pub fn new(capacity: usize) -> (state: Self)
        ensures
            state.within_limit(),
            state.messages() == Seq::<Msg>::empty(),
            state.spec_capacity() == capacity,
    {
        Self { items: VecDeque::new(), capacity }
    }

    /// The number of messages held.
    pub fn len(&self) -> (n: usize)
        ensures
            n == self.messages().len(),
            n <= self.spec_capacity(),
    {
        proof {
            use_type_invariant(self);
        }
        self.items.len()
    }

    pub fn is_empty(&self) -> (empty: bool)
        ensures
            empty == (self.messages().len() == 0),
    {
        self.items.len() == 0
    }

    /// Whether no further message fits.
    pub fn is_full(&self) -> (full: bool)
        ensures
            full == (self.messages().len() >= self.spec_capacity()),
    {
        self.items.len() >= self.capacity
    }

    pub fn capacity(&self) -> (capacity: usize)
        ensures
            capacity == self.spec_capacity(),
    {
        self.capacity
    }

    /// Appends `msg` behind the messages held if there is room, and gives it
    /// back otherwise.
    pub fn try_push(&mut self, msg: Msg) -> (result: Result<(), Msg>)
        ensures
            final(self).within_limit(),
            final(self).spec_capacity() == old(self).spec_capacity(),
            old(self).messages().len() < old(self).spec_capacity() <==> result is Ok,
            result is Ok ==> final(self).messages() == old(self).messages().push(msg),
            result is Err ==> final(self).messages() == old(self).messages()
                && result->Err_0 == msg,
    {
        proof {
            use_type_invariant(&*self);
        }
        if self.items.len() >= self.capacity {
            Err(msg)
        } else {
            let mut items = VecDeque::new();
            std::mem::swap(&mut items, &mut self.items);
            items.push_back(msg);
            self.items = items;
            Ok(())
        }
    }

    /// Takes the oldest message, if there is one.
    pub fn try_pop(&mut self) -> (result: Option<Msg>)
        ensures
            final(self).within_limit(),
            final(self).spec_capacity() == old(self).spec_capacity(),
            old(self).messages().len() == 0 <==> result is None,
            result is None ==> final(self).messages() == old(self).messages(),
            result is Some ==> result->Some_0 == old(self).messages()[0]
                && final(self).messages() == old(self).messages().drop_first(),
    {
        proof {
            use_type_invariant(&*self);
        }
        let mut items = VecDeque::new();
        std::mem::swap(&mut items, &mut self.items);
        let front = items.pop_front();
        self.items = items;
        front
    }
}

/// A first-in first-out buffer of messages with a fixed capacity, shared
/// between threads through a monitor with the conditions `NotEmpty` and
/// `NotFull`.
pub struct BoundedBuffer {
    capacity: usize,
    monitor: Monitor<BufferState>,
}

impl BoundedBuffer {
    pub closed spec fn spec_capacity(&self) -> nat {
        self.capacity as nat
    }

    pub closed spec fn spec_monitor(&self) -> Monitor<BufferState> {
        self.monitor
    }

    /// An empty buffer with room for `capacity` messages, whose monitor has
    /// the two conditions `NotEmpty` and `NotFull`.
    pub fn new(capacity: usize) -> (buffer: Self)
        ensures
            buffer.spec_capacity() == capacity,
            buffer.spec_monitor().spec_built_from() matches Some((state, registered)) && state.messages()
                == Seq::<Msg>::empty() && state.spec_capacity() == capacity && registered.len() == 2
                && registered[0].0 != registered[1].0,
    {
        let (not_empty, not_full) = buffer_condition_keys();
        let monitor = MonitorBuilder::new(BufferState::new(capacity))
            .with_condition_key(not_empty)
            .with_condition_key(not_full)
            .build();
        Self { capacity, monitor }
    }

    pub fn capacity(&self) -> (capacity: usize)
        ensures
            capacity == self.spec_capacity(),
    {
        self.capacity
    }

    /// The monitor that guards the messages.
    pub fn monitor(&self) -> (monitor: &Monitor<BufferState>)
        ensures
            *monitor == self.spec_monitor(),
    {
        &self.monitor
    }
}

/// Appending a message behind messages already held does not change which
/// message is taken next, and taking that one leaves the rest in order with
/// the new message last: appending and taking commute on a non-empty buffer.
pub proof fn lemma_push_pop_commute(held: Seq<Msg>, msg: Msg)
    requires
        held.len() > 0,
    ensures
        held.push(msg)[0] == held[0],
        held.push(msg).drop_first() == held.drop_first().push(msg),
{
    assert(held.push(msg).drop_first() =~= held.drop_first().push(msg));
}

/// Messages leave in the order in which they arrived: after the messages
/// `arrivals` are appended behind `held`, the next `held.len()` messages taken
/// are those of `held`, and what then remains is `arrivals` in order.
pub proof fn lemma_first_in_first_out(held: Seq<Msg>, arrivals: Seq<Msg>)
    ensures
        (held + arrivals).take(held.len() as int) == held,
        (held + arrivals).skip(held.len() as int) == arrivals,
{
    assert((held + arrivals).take(held.len() as int) =~= held);
    assert((held + arrivals).skip(held.len() as int) =~= arrivals);
}

} // verus!
