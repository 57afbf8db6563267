//! Raw-volume reader for NTFS: parses the boot sector, MFT records with
//! their fixup arrays, attribute lists and data runs, and presents the data
//! attribute of any MFT entry as a seekable byte stream gathered from the
//! clusters of the volume.
pub mod bytes;
pub mod content;
pub mod device;
pub mod error;
pub mod file_system;
pub mod metadata;
