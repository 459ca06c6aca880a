//! Installer configuration and validation model.
//!
//! The crate models the choices made before an operating-system
//! installation proceeds: the boot-disk layout with its derived LVM
//! sizing defaults, network addressing in CIDR notation, locale and
//! credential option groups, and the flattening of a full
//! configuration into an ordered list of human-readable summary rows.

pub mod cidr;
pub mod digits;
pub mod groups;
pub mod ip;
pub mod options;

pub use cidr::AddrParseError;
pub use cidr::CidrAddress;
pub use cidr::CidrAddressParseError;
pub use cidr::IntParseError;
pub use cidr::IntParseErrorKind;
pub use ip::IpAddr;
pub use ip::Ipv4Addr;
pub use ip::Ipv6Addr;
pub use options::AdvancedBootdiskOptions;
pub use options::BootdiskOptions;
pub use options::Disk;
pub use options::FsType;
pub use options::InstallerOptions;
pub use options::LvmBootdiskOptions;
pub use options::NetworkOptions;
pub use options::PasswordOptions;
pub use options::SummaryOption;
pub use options::TimezoneOptions;
