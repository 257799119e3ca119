//! What handlers do with events, and in particular with those that do not fit the keys' state.
use crate::combo::model::{KeyState, Machine};
use crate::types::{HandlingResult, Keycode, Kind};
use vstd::prelude::*;

verus! {

/// How a handler treats a key-down of a key that is down, and a key-up of a key that is up.
#[derive(Copy, Clone, Debug, PartialEq, Eq, Structural)]
pub enum Policy {
    /// There are none.
    Simple,
    /// They are ignored.
    Strict,
    /// They are counted, and ignored but for the key-up that makes up for the last key-down.
    Counting,
}

impl<Z: Keycode> Machine<Z> {
    /// The machine with a key's number of pending key-down events replaced.
    pub open spec fn counting(self, key: usize, pending: u64) -> Self {
        self.with_key(key, KeyState { pending, ..self.keys[key as int] })
    }

    /// The keys with pending key-down events are those that are down.
    pub open spec fn tracks(self) -> bool {
        forall|k: usize|
            k < self.keys.len() ==> (self.down.contains(k) <==> (
            #[trigger] self.keys[k as int]).pending > 0)
    }

    /// What an event of a key comes to, if it is handled regularly.
    pub open spec fn handles(
        self,
        key: usize,
        kind: Kind,
        value: i16,
        post: Self,
        result: HandlingResult,
    ) -> bool {
        &&& result == HandlingResult::Handled
        &&& self.leads_to(key, kind, value, post)
    }
}

impl Policy {
    /// The machine is one that the handler can be in.
    pub open spec fn suits<Z: Keycode>(self, m: Machine<Z>) -> bool {
        self != Policy::Simple ==> m.tracks()
    }

    /// The handler is prepared for the event. A handler that counts takes as many pending key-down
    /// events as a `u64` can count.
    pub open spec fn accepts<Z: Keycode>(self, m: Machine<Z>, code: usize, kind: Kind) -> bool {
        match m.layout.key_of(code) {
            None => true,
            Some(key) => match self {
                Policy::Simple => m.sane(key, kind),
                Policy::Strict => true,
                Policy::Counting => kind == Kind::Down ==> m.keys[key as int].pending < u64::MAX,
            },
        }
    }

    /// What an event comes to.
    pub open spec fn allows<Z: Keycode>(
        self,
        m: Machine<Z>,
        code: usize,
        kind: Kind,
        value: i16,
        post: Machine<Z>,
        result: HandlingResult,
    ) -> bool {
        match m.layout.key_of(code) {
            None => result == HandlingResult::Unhandled && post == m,
            Some(key) => {
                let pending = m.keys[key as int].pending;
                match (self, kind) {
                    (Policy::Strict, Kind::Down) => if pending == 0 {
                        m.counting(key, 1).handles(key, kind, value, post, result)
                    } else {
                        result == HandlingResult::DoubleDown && post == m
                    },
                    (Policy::Strict, Kind::Up) => if pending == 0 {
                        result == HandlingResult::DoubleUp && post == m
                    } else {
                        m.counting(key, 0).handles(key, kind, value, post, result)
                    },
                    (Policy::Counting, Kind::Down) => if pending == 0 {
                        m.counting(key, 1).handles(key, kind, value, post, result)
                    } else {
                        result == HandlingResult::DoubleDown && post == m.counting(
                            key,
                            (pending + 1) as u64,
                        )
                    },
                    (Policy::Counting, Kind::Up) => if pending == 0 {
                        result == HandlingResult::DoubleUp && post == m
                    } else if pending == 1 {
                        m.counting(key, 0).handles(key, kind, value, post, result)
                    } else {
                        result == HandlingResult::DoubleUp && post == m.counting(
                            key,
                            (pending - 1) as u64,
                        )
                    },
                    _ => m.handles(key, kind, value, post, result),
                }
            },
        }
    }
}

} // verus!
