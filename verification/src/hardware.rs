//! What the core asks of the hardware around a device: the unit that
//! translates its memory accesses, and the controller that delivers its
//! interrupts. Each remembers what it was asked.
use vstd::prelude::*;
use crate::error::KError;
use crate::object::ObjectId;

verus! {

/// Something a DMA translation unit was asked to do.
#[derive(Clone, Copy, PartialEq, Eq, Debug, Structural)]
pub enum DmaOp {
    /// Drop every translation of the device.
    EndLease(ObjectId),
    /// Drop one range, and whether that worked.
    Unmap { device: ObjectId, address: u64, len: u64, ok: bool },
}

/// A DMA translation unit, or the lack of one.
pub trait DmaMapper {
    /// Everything asked so far.
    spec fn trace(&self) -> Seq<DmaOp>;

    /// Whether there is a unit at all.
    spec fn present(&self) -> bool;

    /// Whether there is a unit at all.
    fn is_present(&self) -> (b: bool)
        ensures
            b == self.present(),
    ;

    /// Drops every translation of `device`, if there is a unit.
    fn end_lease(&mut self, device: ObjectId)
        ensures
            final(self).present() == old(self).present(),
            final(self).trace() == (if old(self).present() {
                old(self).trace().push(DmaOp::EndLease(device))
            } else {
                old(self).trace()
            }),
    ;

    /// Drops the translation of `len` bytes at `address` of `device`. Refused
    /// when there is no unit.
    fn unmap(&mut self, device: ObjectId, address: u64, len: u64) -> (r: Result<(), KError>)
        ensures
            final(self).present() == old(self).present(),
            if old(self).present() {
                final(self).trace() == old(self).trace().push(
                    DmaOp::Unmap { device, address, len, ok: r is Ok },
                )
            } else {
                r is Err && final(self).trace() == old(self).trace()
            },
    ;
}

/// A machine without a DMA translation unit.
pub struct NoDma;

impl DmaMapper for NoDma {
    open spec fn trace(&self) -> Seq<DmaOp> {
        Seq::empty()
    }

    open spec fn present(&self) -> bool {
        false
    }

    fn is_present(&self) -> (b: bool) {
        false
    }

    fn end_lease(&mut self, _device: ObjectId) {
    }

    fn unmap(&mut self, _device: ObjectId, _address: u64, _len: u64) -> (r: Result<(), KError>) {
        Err(KError::NotSupported)
    }
}

/// A DMA translation unit whose commands are queued for its driver.
pub struct DmaQueue {
    queue: Vec<DmaOp>,
}

impl DmaQueue {
    pub fn new() -> (q: DmaQueue)
        ensures
            q.trace() == Seq::<DmaOp>::empty(),
    {
        DmaQueue { queue: Vec::new() }
    }

    /// The commands not applied yet, oldest first.
    pub fn pending(&self) -> (ops: &[DmaOp])
        ensures
            ops@ == self.trace(),
    {
        self.queue.as_slice()
    }
}

impl DmaMapper for DmaQueue {
    closed spec fn trace(&self) -> Seq<DmaOp> {
        self.queue@
    }

    open spec fn present(&self) -> bool {
        true
    }

    fn is_present(&self) -> (b: bool) {
        true
    }

    fn end_lease(&mut self, device: ObjectId) {
        self.queue.push(DmaOp::EndLease(device));
    }

    fn unmap(&mut self, device: ObjectId, address: u64, len: u64) -> (r: Result<(), KError>) {
        self.queue.push(DmaOp::Unmap { device, address, len, ok: true });
        Ok(())
    }
}

/// An interrupt controller, or the lack of one.
pub trait InterruptRouter {
    /// The lines masked so far, in order.
    spec fn masked(&self) -> Seq<u32>;

    /// Whether there is a controller at all.
    spec fn present(&self) -> bool;

    /// Whether there is a controller at all.
    fn is_present(&self) -> (b: bool)
        ensures
            b == self.present(),
    ;

    /// Stops line `intid` from being delivered, if there is a controller.
    fn mask(&mut self, intid: u32)
        ensures
            final(self).present() == old(self).present(),
            final(self).masked() == (if old(self).present() {
                old(self).masked().push(intid)
            } else {
                old(self).masked()
            }),
    ;
}

/// A machine whose interrupt lines cannot be masked from here.
pub struct NoRouter;

impl InterruptRouter for NoRouter {
    open spec fn masked(&self) -> Seq<u32> {
        Seq::empty()
    }

    open spec fn present(&self) -> bool {
        false
    }

    fn is_present(&self) -> (b: bool) {
        false
    }

    fn mask(&mut self, _intid: u32) {
    }
}

/// An interrupt controller whose lines to mask are queued for its driver.
pub struct MaskQueue {
    lines: Vec<u32>,
}

impl MaskQueue {
    pub fn new() -> (q: MaskQueue)
        ensures
            q.masked() == Seq::<u32>::empty(),
    {
        MaskQueue { lines: Vec::new() }
    }

    /// The lines to mask, oldest first.
    pub fn pending(&self) -> (lines: &[u32])
        ensures
            lines@ == self.masked(),
    {
        self.lines.as_slice()
    }
}

impl InterruptRouter for MaskQueue {
    closed spec fn masked(&self) -> Seq<u32> {
        self.lines@
    }

    open spec fn present(&self) -> bool {
        true
    }

    fn is_present(&self) -> (b: bool) {
        true
    }

    fn mask(&mut self, intid: u32) {
        self.lines.push(intid);
    }
}

} // verus!
