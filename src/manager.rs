//! Aggregation of control-surface input, and dispatch of output by device
//! class.
//!
//! Every input endpoint posts its events, tagged with its device class, to
//! one shared queue; the consumer takes them off in arrival order. Output goes
//! to every registered output of the addressed class.

use vstd::prelude::*;

use std::sync::mpsc::{Receiver, Sender};
use std::time::Duration;

use crate::device::Device;
use crate::midi::{encode_event, event_of_bytes, is_fan_out, parse_message, targets, wire_bytes, Event, CHANNEL_COUNT};

verus! {

#[verifier::external_type_specification]
#[verifier::external_body]
#[verifier::reject_recursive_types(T)]
pub struct ExSender<T>(std::sync::mpsc::Sender<T>);

#[verifier::external_type_specification]
#[verifier::external_body]
#[verifier::reject_recursive_types(T)]
pub struct ExReceiver<T>(std::sync::mpsc::Receiver<T>);

/// Relies on std::sync::mpsc::channel: a new, empty queue and its two ends.
#[verifier::external_body]
fn new_queue() -> (r: (Sender<(Device, Event)>, Receiver<(Device, Event)>)) {
    std::sync::mpsc::channel()
}

/// Relies on Sender::clone: another handle that posts to the same queue.
#[verifier::external_body]
fn share_sender(tx: &Sender<(Device, Event)>) -> (r: Sender<(Device, Event)>) {
    tx.clone()
}

/// Relies on Sender::send, which fails only when the receiving end is gone.
#[verifier::external_body]
fn post(tx: &Sender<(Device, Event)>, item: (Device, Event)) -> (r: bool) {
    tx.send(item).is_ok()
}

/// Relies on Receiver::recv_timeout: the next queued item, or nothing when
/// none arrives within the timeout.
#[verifier::external_body]
fn take(rx: &Receiver<(Device, Event)>, timeout: Duration) -> (r: Option<(Device, Event)>) {
    rx.recv_timeout(timeout).ok()
}

/// What became of one raw input message.
#[derive(Debug, Copy, Clone, PartialEq, Eq, Structural)]
pub enum Delivery {
    /// The message carries no supported event; nothing was posted.
    Ignored,
    /// The event was posted to the shared queue.
    Queued,
    /// The event could not be posted: the queue's consumer is gone.
    Closed,
}

/// Turns the raw messages of one input endpoint into events tagged with
/// its device class, and posts them to the shared queue.
pub struct InputHandler {
    device: Device,
    sender: Sender<(Device, Event)>,
}

impl InputHandler {
    /// The device class this handler tags its events with.
    pub closed spec fn device_class(&self) -> Device {
        self.device
    }

    /// The device class this handler tags its events with.
    pub fn device(&self) -> (d: Device)
        ensures
            d == self.device_class(),
    {
        self.device
    }

    /// The tagged event a raw message carries: this handler's device class
    /// with the event read from the message; nothing when the message carries
    /// no supported event.
    pub fn tagged(&self, msg: &[u8]) -> (r: Option<(Device, Event)>)
        ensures
            r == match event_of_bytes(msg@) {
                Some(e) => Some((self.device_class(), e)),
                None => None,
            },
    {
        match parse_message(msg) {
            Some(e) => Some((self.device, e)),
            None => None,
        }
    }

    /// Handles one raw message: a message that carries no supported event is
    /// dropped without error; any other is posted as the value `tagged`
    /// gives, this handler's device class with the event.
    pub fn handle(&self, msg: &[u8]) -> (r: Delivery)
        ensures
            event_of_bytes(msg@) is None <==> r == Delivery::Ignored,
    {
        match self.tagged(msg) {
            None => Delivery::Ignored,
            Some(item) => if post(&self.sender, item) {
                Delivery::Queued
            } else {
                Delivery::Closed
            },
        }
    }
}

/// What sending one event amounts to: the three bytes to write, and the
/// indices of the registered outputs to write them to.
pub struct Dispatch {
    pub message: [u8; 3],
    pub targets: Vec<usize>,
}

/// Keeps the shared input queue and the device class of each registered
/// output, in registration order.
pub struct Manager {
    outputs: Vec<Device>,
    send: Sender<(Device, Event)>,
    recv: Receiver<(Device, Event)>,
}

impl Manager {
    /// Device classes of the registered outputs, in registration order.
    pub closed spec fn output_devices(&self) -> Seq<Device> {
        self.outputs@
    }

    /// A manager with no outputs and an empty input queue.
    pub fn new() -> (r: Manager)
        ensures
            r.output_devices().len() == 0,
    {
        let (send, recv) = new_queue();
        Manager { outputs: Vec::new(), send, recv }
    }

    /// A handler for a new input endpoint of `device`, posting to this
    /// manager's queue.
    pub fn input_handler(&self, device: Device) -> (h: InputHandler)
        ensures
            h.device_class() == device,
    {
        InputHandler { device, sender: share_sender(&self.send) }
    }

    /// Registers an output of `device`; returns its index.
    pub fn register_output(&mut self, device: Device) -> (i: usize)
        ensures
            final(self).output_devices() == old(self).output_devices().push(device),
            i == old(self).output_devices().len(),
    {
        let i = self.outputs.len();
        self.outputs.push(device);
        i
    }

    /// The next tagged input event, waiting at most `timeout` for one.
    pub fn receive(&self, timeout: Duration) -> (r: Option<(Device, Event)>) {
        take(&self.recv, timeout)
    }

    /// What sending `event` to `device` takes: its wire form, written to every
    /// registered output of that class.
    pub fn send(&self, device: Device, event: Event) -> (d: Dispatch)
        requires
            event.mapping.channel < CHANNEL_COUNT,
        ensures
            d.message@ == wire_bytes(event),
            is_fan_out(self.output_devices(), device, d.targets@),
    {
        Dispatch { message: encode_event(event), targets: targets(&self.outputs, device) }
    }
}

} // verus!
