//! The long Matrix identifiers the core works with.
//!
//! Each identifier is externally defined, opaque text; the core never
//! inspects it beyond raw bytes, so each type carries its identifier as a
//! byte string and is viewed as that byte sequence.

use vstd::prelude::*;

use crate::bytes::clone_bytes;

verus! {

/// A globally unique, content-addressed room event identifier.
#[derive(Debug)]
pub struct EventId {
    pub bytes: Vec<u8>,
}

impl View for EventId {
    type V = Seq<u8>;

    open spec fn view(&self) -> Seq<u8> {
        self.bytes@
    }
}

impl EventId {
    pub fn new(bytes: Vec<u8>) -> (r: EventId)
        ensures
            r@ == bytes@,
    {
        EventId { bytes }
    }

    pub fn clone_id(&self) -> (r: EventId)
        ensures
            r@ == self@,
    {
        EventId { bytes: clone_bytes(&self.bytes) }
    }
}

/// A globally unique room identifier.
#[derive(Debug)]
pub struct RoomId {
    pub bytes: Vec<u8>,
}

impl View for RoomId {
    type V = Seq<u8>;

    open spec fn view(&self) -> Seq<u8> {
        self.bytes@
    }
}

impl RoomId {
    pub fn new(bytes: Vec<u8>) -> (r: RoomId)
        ensures
            r@ == bytes@,
    {
        RoomId { bytes }
    }
}

/// The name of a resolution algorithm variant.
#[derive(Debug)]
pub struct RoomVersionId {
    pub bytes: Vec<u8>,
}

impl View for RoomVersionId {
    type V = Seq<u8>;

    open spec fn view(&self) -> Seq<u8> {
        self.bytes@
    }
}

impl RoomVersionId {
    pub fn new(bytes: Vec<u8>) -> (r: RoomVersionId)
        ensures
            r@ == bytes@,
    {
        RoomVersionId { bytes }
    }
}

/// A Matrix event type restricted to state events.
#[derive(Debug)]
pub struct StateEventType {
    pub bytes: Vec<u8>,
}

impl View for StateEventType {
    type V = Seq<u8>;

    open spec fn view(&self) -> Seq<u8> {
        self.bytes@
    }
}

impl StateEventType {
    pub fn new(bytes: Vec<u8>) -> (r: StateEventType)
        ensures
            r@ == bytes@,
    {
        StateEventType { bytes }
    }

    pub fn clone_id(&self) -> (r: StateEventType)
        ensures
            r@ == self@,
    {
        StateEventType { bytes: clone_bytes(&self.bytes) }
    }
}

/// A Matrix user identifier.
#[derive(Debug)]
pub struct UserId {
    pub bytes: Vec<u8>,
}

impl View for UserId {
    type V = Seq<u8>;

    open spec fn view(&self) -> Seq<u8> {
        self.bytes@
    }
}

impl UserId {
    pub fn new(bytes: Vec<u8>) -> (r: UserId)
        ensures
            r@ == bytes@,
    {
        UserId { bytes }
    }
}

/// The string disambiguating state entries of one event type.
#[derive(Debug)]
pub struct StateKey {
    pub bytes: Vec<u8>,
}

impl View for StateKey {
    type V = Seq<u8>;

    open spec fn view(&self) -> Seq<u8> {
        self.bytes@
    }
}

impl StateKey {
    pub fn new(bytes: Vec<u8>) -> (r: StateKey)
        ensures
            r@ == bytes@,
    {
        StateKey { bytes }
    }

    pub fn clone_id(&self) -> (r: StateKey)
        ensures
            r@ == self@,
    {
        StateKey { bytes: clone_bytes(&self.bytes) }
    }
}

} // verus!
