//! Device drivers, one subsystem per module.

pub mod ahci;
pub mod keys;
pub mod layouts;
pub mod nvme;
pub mod pci;
pub mod ps2;
pub mod queue;
pub mod steps;
pub mod storage;
pub mod usb;
