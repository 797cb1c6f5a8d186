//! The block device model.
use vstd::prelude::*;

verus! {

/// What kind of block device an entry is.
pub enum DeviceKind {
    Disk,
    Partition { parent: String, part_num: u32 },
    /// `backing_file` is the path of the file behind the loop device, when
    /// one is attached.
    Loopback { backing_file: Option<String> },
}

/// One block device as the viewer shows it. Paths are held as strings.
pub struct DiskDevice {
    pub id: String,
    pub kind: DeviceKind,
    pub fstype: Option<String>,
    pub mountpoints: Vec<String>,
    pub removable: bool,
    /// In bytes.
    pub size: Option<u64>,
    /// In bytes.
    pub used: Option<u64>,
}

} // verus!
