//! A field that is kept both on the host and on the device: which copy is
//! fresh, and when a transfer is due.

use vstd::prelude::*;

verus! {

/// The host copy of a field and the flags that tell where it was changed last.
pub struct DualBuffer<T> {
    pub host: Vec<T>,
    pub modified_host: bool,
    pub modified_device: bool,
}

impl<T> DualBuffer<T> {
    /// At most one side has been changed since both were the same.
    pub open spec fn wf(&self) -> bool {
        !(self.modified_host && self.modified_device)
    }

    /// With `device` in the device's memory: neither side is stale unless its
    /// flag says so.
    pub open spec fn tracks(&self, device: Seq<T>) -> bool {
        &&& self.wf()
        &&& !self.modified_host && !self.modified_device ==> self.host@ == device
    }

    /// The field: what the side that was changed last holds.
    pub open spec fn value(&self, device: Seq<T>) -> Seq<T> {
        if self.modified_device {
            device
        } else {
            self.host@
        }
    }

    /// A field with initial data on the host, none of it on the device yet.
    pub fn new(host: Vec<T>) -> (r: DualBuffer<T>)
        ensures
            r.host == host,
            r.modified_host,
            !r.modified_device,
    {
        DualBuffer { host, modified_host: true, modified_device: false }
    }

    pub fn len(&self) -> (r: usize)
        ensures
            r == self.host@.len(),
    {
        self.host.len()
    }

    pub fn is_empty(&self) -> (r: bool)
        ensures
            r == (self.host@.len() == 0),
    {
        self.host.len() == 0
    }

    /// Records that a kernel wrote the device copy.
    pub fn mark_device_modified(&mut self)
        ensures
            *final(self) == (DualBuffer { modified_device: true, ..*old(self) }),
    {
        self.modified_device = true;
    }

    /// Records that the host copy was changed.
    pub fn mark_host_modified(&mut self)
        ensures
            *final(self) == (DualBuffer { modified_host: true, ..*old(self) }),
    {
        self.modified_host = true;
    }

    /// Before the device reads the field: whether the host copy has to be
    /// uploaded. After the call it counts as uploaded.
    pub fn ensure_device(&mut self) -> (upload: bool)
        ensures
            upload == old(self).modified_host,
            *final(self) == (DualBuffer { modified_host: false, ..*old(self) }),
    {
        let upload: bool = self.modified_host;
        self.modified_host = false;
        upload
    }

    /// Before the host reads the field: whether the device copy has to be
    /// downloaded first.
    pub fn needs_download(&self) -> (r: bool)
        ensures
            r == self.modified_device,
    {
        self.modified_device
    }

    /// Takes over the device copy where a download is due, and does nothing where
    /// none is. A copy of another length is refused, and nothing changes.
    pub fn ensure_host(&mut self, device: Vec<T>) -> (r: bool)
        ensures
            r == (!old(self).modified_device || device@.len() == old(self).host@.len()),
            r && old(self).modified_device ==> *final(self) == (DualBuffer {
                host: device,
                modified_host: old(self).modified_host,
                modified_device: false,
            }),
            !(r && old(self).modified_device) ==> *final(self) == *old(self),
    {
        if !self.modified_device {
            return true;
        }
        if device.len() != self.host.len() {
            return false;
        }
        self.host = device;
        self.modified_device = false;
        true
    }

    /// No transfer is due in either direction.
    pub fn is_coherent(&self) -> (r: bool)
        ensures
            r == (!self.modified_host && !self.modified_device),
    {
        !self.modified_host && !self.modified_device
    }
}

/// An upload keeps the field, and afterwards both sides hold it.
pub proof fn upload_keeps_value<T>(before: DualBuffer<T>, after: DualBuffer<T>, device: Seq<T>)
    requires
        before.tracks(device),
        after == (DualBuffer { modified_host: false, ..before }),
    ensures
        ({
            let written = if before.modified_host {
                before.host@
            } else {
                device
            };
            &&& after.tracks(written)
            &&& after.value(written) == before.value(device)
            &&& written == before.value(device)
        }),
{
}

/// A download keeps the field, and afterwards the host holds it.
pub proof fn download_keeps_value<T>(
    before: DualBuffer<T>,
    after: DualBuffer<T>,
    device: Vec<T>,
)
    requires
        before.tracks(device@),
        before.modified_device ==> after == (DualBuffer {
            host: device,
            modified_host: before.modified_host,
            modified_device: false,
        }),
        !before.modified_device ==> after == before,
    ensures
        after.tracks(device@),
        !after.modified_device,
        after.value(device@) == before.value(device@),
        after.host@ == before.value(device@),
{
}

/// A second download right after a first one transfers nothing.
pub proof fn second_download_is_empty<T>(
    before: DualBuffer<T>,
    mid: DualBuffer<T>,
    device: Vec<T>,
    after: DualBuffer<T>,
    again: Vec<T>,
)
    requires
        !before.modified_host,
        before.modified_device ==> mid == (DualBuffer {
            host: device,
            modified_host: before.modified_host,
            modified_device: false,
        }),
        !before.modified_device ==> mid == before,
        mid.modified_device ==> after == (DualBuffer {
            host: again,
            modified_host: mid.modified_host,
            modified_device: false,
        }),
        !mid.modified_device ==> after == mid,
    ensures
        !mid.modified_device && !mid.modified_host,
        after == mid,
{
}

/// A side that is synchronized before it is changed leaves at most one side
/// changed: the host after a download, the device after an upload.
pub proof fn one_side_is_changed_at_a_time<T>(before: DualBuffer<T>)
    requires
        before.wf(),
    ensures
        (DualBuffer { modified_device: false, modified_host: true, ..before }).wf(),
        (DualBuffer { modified_host: false, modified_device: true, ..before }).wf(),
{
}

/// Work on the device alone needs no transfer: once the field is on the device,
/// kernels may write it any number of times and no upload becomes due.
pub proof fn device_work_needs_no_upload<T>(before: DualBuffer<T>, after: DualBuffer<T>)
    requires
        !before.modified_host,
        after == (DualBuffer { modified_device: true, ..before }),
    ensures
        !after.modified_host,
        after.wf(),
{
}

} // verus!
