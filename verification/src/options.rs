//! Option groups chosen by the user before the installation proceeds:
//! the boot disk with its derived LVM sizing defaults, the filesystem,
//! timezone, credential and network groups, and the projection of the
//! whole configuration into ordered summary rows.

use vstd::prelude::*;

use crate::cidr::cidr_text;
use crate::cidr::CidrAddress;
use crate::digits::digits_of;
use crate::digits::nat_to_text;
use crate::ip::ip_text;
use crate::ip::IpAddr;

verus! {

/// The filesystem to format the boot disk with.
#[derive(Clone, Copy, Debug, PartialEq, Eq, Structural)]
pub enum FsType {
    Ext4,
    Xfs,
}

impl FsType {
    /// The canonical display string of the variant.
    pub open spec fn spec_text(self) -> Seq<char> {
        match self {
            FsType::Ext4 => "ext4"@,
            FsType::Xfs => "XFS"@,
        }
    }

    /// Renders the filesystem choice for display.
    pub fn to_text(&self) -> (r: String)
        ensures
            r@ == self.spec_text(),
    {
        match self {
            FsType::Ext4 => String::from_str("ext4"),
            FsType::Xfs => String::from_str("XFS"),
        }
    }
}

impl Default for FsType {
    /// The default filesystem choice.
    fn default() -> (r: Self)
        ensures
            r == FsType::Ext4,
    {
        FsType::Ext4
    }
}

/// The selectable filesystem choices, in display order.
pub fn fs_types() -> (r: Vec<FsType>)
    ensures
        r@ == seq![FsType::Ext4, FsType::Xfs],
{
    let mut v: Vec<FsType> = Vec::new();
    v.push(FsType::Ext4);
    v.push(FsType::Xfs);
    proof {
        assert(v@ =~= seq![FsType::Ext4, FsType::Xfs]);
    }
    v
}

/// An available storage device: its path and its capacity in bytes.
///
/// Supplied by the disk-discovery collaborator; the size is the
/// authoritative capacity that every derived sizing is computed from.
#[derive(Debug)]
pub struct Disk {
    pub path: String,
    pub size: u64,
}

impl Clone for Disk {
    fn clone(&self) -> (r: Self)
        ensures
            r == *self,
    {
        Disk { path: self.path.clone(), size: self.size }
    }
}

/// Sizing parameters for a single-disk LVM boot-disk layout,
/// in bytes.  A `max_root_size` or `max_data_size` of 0 means
/// "no explicit cap: consume the remaining space automatically",
/// not "zero capacity".
#[derive(Debug)]
pub struct LvmBootdiskOptions {
    pub disk: Disk,
    pub total_size: u64,
    pub swap_size: u64,
    pub max_root_size: u64,
    pub max_data_size: u64,
    pub min_lvm_free: u64,
}

/// Disk sizes above this bound get the fixed free-space reservation.
pub const LVM_FREE_THRESHOLD: u64 = 128 * 1024 * 1024;

/// The fixed free-space reservation for disks above the threshold.
pub const LVM_FREE_FIXED: u64 = 16 * 1024 * 1024;

/// The default swap size; a placeholder pending sizing from installed
/// memory, which is not available to this crate.
pub const SWAP_SIZE_DEFAULT: u64 = 4 * 1024 * 1024;

/// The space deliberately left unallocated in the volume group,
/// tiered by disk size: a fixed reservation on large disks, an eighth
/// of the capacity on small ones.
pub open spec fn spec_min_lvm_free(disk_size: u64) -> u64 {
    if disk_size > LVM_FREE_THRESHOLD {
        LVM_FREE_FIXED
    } else {
        disk_size / 8
    }
}

impl Clone for LvmBootdiskOptions {
    fn clone(&self) -> (r: Self)
        ensures
            r == *self,
    {
        LvmBootdiskOptions {
            disk: self.disk.clone(),
            total_size: self.total_size,
            swap_size: self.swap_size,
            max_root_size: self.max_root_size,
            max_data_size: self.max_data_size,
            min_lvm_free: self.min_lvm_free,
        }
    }
}

impl LvmBootdiskOptions {
    /// Derives the safe starting layout for the given disk: the whole
    /// capacity is available, swap gets the fixed default, the root and
    /// data volumes are uncapped, and the free-space reservation is
    /// tiered by disk size.
    pub fn defaults_from(disk: &Disk) -> (r: Self)
        ensures
            r.disk == *disk,
            r.total_size == disk.size,
            r.swap_size == SWAP_SIZE_DEFAULT,
            r.max_root_size == 0,
            r.max_data_size == 0,
            r.min_lvm_free == spec_min_lvm_free(disk.size),
    {
        let min_lvm_free: u64 = if disk.size > LVM_FREE_THRESHOLD {
            LVM_FREE_FIXED
        } else {
            disk.size / 8
        };

        Self {
            disk: disk.clone(),
            total_size: disk.size,
            swap_size: SWAP_SIZE_DEFAULT,
            max_root_size: 0,
            max_data_size: 0,
            min_lvm_free,
        }
    }
}

impl Disk {
    /// The display text of the disk: its path and its size in bytes.
    pub open spec fn spec_text(self) -> Seq<char> {
        self.path@ + " ("@ + digits_of(self.size as nat, 10) + " B)"@
    }

    /// Renders the disk for display.
    pub fn to_text(&self) -> (r: String)
        ensures
            r@ == self.spec_text(),
    {
        let mut r = self.path.clone();
        r.append(" (");
        let t = nat_to_text(self.size, 10);
        r.append(t.as_str());
        r.append(" B)");
        proof {
            assert(r@ =~= self.spec_text());
        }
        r
    }
}

/// The boot-disk layout strategy in use.  One strategy exists today;
/// new layout kinds add variants here, and consumers that only need
/// the disks in use read `selected_disks` unchanged.
#[derive(Debug)]
pub enum AdvancedBootdiskOptions {
    Lvm(LvmBootdiskOptions),
}

impl Clone for AdvancedBootdiskOptions {
    fn clone(&self) -> (r: Self)
        ensures
            r == *self,
    {
        match self {
            AdvancedBootdiskOptions::Lvm(o) => AdvancedBootdiskOptions::Lvm(o.clone()),
        }
    }
}

impl AdvancedBootdiskOptions {
    /// The ordered disks the active layout actually uses.
    pub open spec fn spec_selected_disks(self) -> Seq<Disk> {
        match self {
            AdvancedBootdiskOptions::Lvm(o) => seq![o.disk],
        }
    }

    /// Produces the ordered disks the active layout actually uses;
    /// for the LVM layout, exactly the one disk it was built from.
    pub fn selected_disks(&self) -> (r: Vec<Disk>)
        ensures
            r@ == self.spec_selected_disks(),
    {
        match self {
            AdvancedBootdiskOptions::Lvm(o) => {
                let mut v: Vec<Disk> = Vec::new();
                v.push(o.disk.clone());
                proof {
                    assert(v@ =~= self.spec_selected_disks());
                }
                v
            },
        }
    }
}

/// The boot-disk choices: the candidate disks, the filesystem, and
/// the chosen layout strategy (which uses a subset of the
/// candidates).
#[derive(Debug)]
pub struct BootdiskOptions {
    pub disks: Vec<Disk>,
    pub fstype: FsType,
    pub advanced: AdvancedBootdiskOptions,
}

impl Clone for BootdiskOptions {
    fn clone(&self) -> (r: Self)
        ensures
            r.disks@ == self.disks@,
            r.fstype == self.fstype,
            r.advanced == self.advanced,
    {
        let mut disks: Vec<Disk> = Vec::new();
        let mut i: usize = 0;
        while i < self.disks.len()
            invariant
                0 <= i <= self.disks@.len(),
                disks@ =~= self.disks@.take(i as int),
            decreases self.disks@.len() - i,
        {
            disks.push(self.disks[i].clone());
            i = i + 1;
        }
        proof {
            assert(self.disks@.take(self.disks@.len() as int) =~= self.disks@);
        }
        BootdiskOptions { disks, fstype: self.fstype, advanced: self.advanced.clone() }
    }
}

/// Locale choices, with their defaults.
#[derive(Debug)]
pub struct TimezoneOptions {
    pub timezone: String,
    pub kb_layout: String,
}

impl Clone for TimezoneOptions {
    fn clone(&self) -> (r: Self)
        ensures
            r == *self,
    {
        TimezoneOptions { timezone: self.timezone.clone(), kb_layout: self.kb_layout.clone() }
    }
}

impl Default for TimezoneOptions {
    /// The default locale choices.
    fn default() -> (r: Self)
        ensures
            r.timezone@ == "Europe/Vienna"@,
            r.kb_layout@ == "en_US"@,
    {
        TimezoneOptions {
            timezone: String::from_str("Europe/Vienna"),
            kb_layout: String::from_str("en_US"),
        }
    }
}

/// Credential choices, with their defaults.  The default password is
/// empty and must be supplied before use.
#[derive(Debug)]
pub struct PasswordOptions {
    pub email: String,
    pub root_password: String,
}

impl Clone for PasswordOptions {
    fn clone(&self) -> (r: Self)
        ensures
            r == *self,
    {
        PasswordOptions {
            email: self.email.clone(),
            root_password: self.root_password.clone(),
        }
    }
}

impl Default for PasswordOptions {
    /// The default credential choices.
    fn default() -> (r: Self)
        ensures
            r.email@ == "mail@example.invalid"@,
            r.root_password@ == Seq::<char>::empty(),
    {
        PasswordOptions {
            email: String::from_str("mail@example.invalid"),
            root_password: String::new(),
        }
    }
}

/// Network choices, with placeholder defaults pending real detection.
#[derive(Debug)]
pub struct NetworkOptions {
    pub ifname: String,
    pub fqdn: String,
    pub address: CidrAddress,
    pub gateway: IpAddr,
    pub dns_server: IpAddr,
}

impl Clone for NetworkOptions {
    fn clone(&self) -> (r: Self)
        ensures
            r == *self,
    {
        NetworkOptions {
            ifname: self.ifname.clone(),
            fqdn: self.fqdn.clone(),
            address: self.address,
            gateway: self.gateway,
            dns_server: self.dns_server,
        }
    }
}

impl Default for NetworkOptions {
    /// The default network choices: the unspecified IPv4 address with
    /// mask 0 for the host, and the unspecified address for gateway
    /// and DNS.
    fn default() -> (r: Self)
        ensures
            r.ifname@ == Seq::<char>::empty(),
            r.fqdn@ == "pve.example.invalid"@,
            r.address.spec_addr() == IpAddr::unspecified_v4_spec(),
            r.address.spec_mask() == 0,
            r.gateway == IpAddr::unspecified_v4_spec(),
            r.dns_server == IpAddr::unspecified_v4_spec(),
    {
        let address = match CidrAddress::new(IpAddr::unspecified_v4(), 0) {
            Ok(c) => c,
            // The mask 0 is within bounds, so construction cannot fail.
            Err(_) => unreached(),
        };
        NetworkOptions {
            ifname: String::new(),
            fqdn: String::from_str("pve.example.invalid"),
            address,
            gateway: IpAddr::unspecified_v4(),
            dns_server: IpAddr::unspecified_v4(),
        }
    }
}

/// One row of the final confirmation screen: a label and the value
/// rendered for display.
#[derive(Debug)]
pub struct SummaryOption {
    pub label: String,
    pub value: String,
}

impl SummaryOption {
    /// Builds one summary row.
    pub fn new(label: &str, value: String) -> (r: Self)
        ensures
            r.label@ == label@,
            r.value@ == value@,
    {
        SummaryOption { label: String::from_str(label), value }
    }
}

/// The paths of the given disks, joined by a comma and a space.
pub open spec fn joined_paths(ds: Seq<Disk>) -> Seq<char>
    decreases ds.len(),
{
    if ds.len() == 0 {
        Seq::<char>::empty()
    } else if ds.len() == 1 {
        ds[0].path@
    } else {
        ds[0].path@ + ", "@ + joined_paths(ds.drop_first())
    }
}

/// Appending a disk appends its path behind one joiner.
proof fn lemma_joined_paths_push(ds: Seq<Disk>, d: Disk)
    ensures
        ds.len() == 0 ==> joined_paths(ds.push(d)) == d.path@,
        ds.len() >= 1 ==> joined_paths(ds.push(d)) == joined_paths(ds) + ", "@ + d.path@,
    decreases ds.len(),
{
    let p = ds.push(d);
    if ds.len() == 0 {
        assert(p.len() == 1);
        assert(p[0] == d);
    } else if ds.len() == 1 {
        assert(p.len() == 2);
        assert(p[0] == ds[0]);
        assert(p.drop_first() =~= seq![d]);
        assert(joined_paths(seq![d]) == d.path@);
    } else {
        assert(p.drop_first() =~= ds.drop_first().push(d));
        lemma_joined_paths_push(ds.drop_first(), d);
        assert(p[0] == ds[0]);
        assert(ds[0].path@ + ", "@ + (joined_paths(ds.drop_first()) + ", "@ + d.path@) =~= (
        ds[0].path@ + ", "@ + joined_paths(ds.drop_first())) + ", "@ + d.path@);
    }
}

/// Joins the paths of the given disks with a comma and a space.
#[verifier::loop_isolation(false)]
fn join_paths(ds: &Vec<Disk>) -> (r: String)
    ensures
        r@ == joined_paths(ds@),
{
    let mut r = String::new();
    let mut i: usize = 0;
    while i < ds.len()
        invariant
            0 <= i <= ds@.len(),
            i == 0 ==> r@ == Seq::<char>::empty(),
            i > 0 ==> r@ == joined_paths(ds@.take(i as int)),
        decreases ds@.len() - i,
    {
        if i > 0 {
            r.append(", ");
        }
        r.append(ds[i].path.as_str());
        proof {
            lemma_joined_paths_push(ds@.take(i as int), ds@[i as int]);
            assert(ds@.take(i as int).push(ds@[i as int]) =~= ds@.take(i + 1));
        }
        i = i + 1;
    }
    proof {
        assert(ds@.take(ds@.len() as int) =~= ds@);
    }
    r
}

/// The whole configuration: every option group, aggregated for the
/// final confirmation and for the install step that follows it.
#[derive(Debug)]
pub struct InstallerOptions {
    pub bootdisk: BootdiskOptions,
    pub timezone: TimezoneOptions,
    pub password: PasswordOptions,
    pub network: NetworkOptions,
}

impl Clone for InstallerOptions {
    fn clone(&self) -> (r: Self)
        ensures
            r.bootdisk.disks@ == self.bootdisk.disks@,
            r.bootdisk.fstype == self.bootdisk.fstype,
            r.bootdisk.advanced == self.bootdisk.advanced,
            r.timezone == self.timezone,
            r.password == self.password,
            r.network == self.network,
    {
        InstallerOptions {
            bootdisk: self.bootdisk.clone(),
            timezone: self.timezone.clone(),
            password: self.password.clone(),
            network: self.network.clone(),
        }
    }
}

impl InstallerOptions {
    /// Flattens the configuration into its ten summary rows, in the
    /// fixed order the confirmation screen relies on; every value is
    /// rendered through its entity's own formatting contract.
    pub fn to_summary(&self) -> (r: Vec<SummaryOption>)
        ensures
            r@.len() == 10,
            r@[0].label@ == "Bootdisk filesystem"@,
            r@[0].value@ == self.bootdisk.fstype.spec_text(),
            r@[1].label@ == "Bootdisks"@,
            r@[1].value@ == joined_paths(self.bootdisk.advanced.spec_selected_disks()),
            r@[2].label@ == "Timezone"@,
            r@[2].value@ == self.timezone.timezone@,
            r@[3].label@ == "Keyboard layout"@,
            r@[3].value@ == self.timezone.kb_layout@,
            r@[4].label@ == "Administator email:"@,
            r@[4].value@ == self.password.email@,
            r@[5].label@ == "Management interface:"@,
            r@[5].value@ == self.network.ifname@,
            r@[6].label@ == "Hostname:"@,
            r@[6].value@ == self.network.fqdn@,
            r@[7].label@ == "Host IP (CIDR):"@,
            r@[7].value@ == cidr_text(
                self.network.address.spec_addr(),
                self.network.address.spec_mask(),
            ),
            r@[8].label@ == "Gateway"@,
            r@[8].value@ == ip_text(self.network.gateway),
            r@[9].label@ == "DNS:"@,
            r@[9].value@ == ip_text(self.network.dns_server),
    {
        let mut r: Vec<SummaryOption> = Vec::new();
        r.push(SummaryOption::new("Bootdisk filesystem", self.bootdisk.fstype.to_text()));
        let selected = self.bootdisk.advanced.selected_disks();
        r.push(SummaryOption::new("Bootdisks", join_paths(&selected)));
        r.push(SummaryOption::new("Timezone", self.timezone.timezone.clone()));
        r.push(SummaryOption::new("Keyboard layout", self.timezone.kb_layout.clone()));
        r.push(SummaryOption::new("Administator email:", self.password.email.clone()));
        r.push(SummaryOption::new("Management interface:", self.network.ifname.clone()));
        r.push(SummaryOption::new("Hostname:", self.network.fqdn.clone()));
        r.push(SummaryOption::new("Host IP (CIDR):", self.network.address.to_text()));
        r.push(SummaryOption::new("Gateway", self.network.gateway.to_text()));
        r.push(SummaryOption::new("DNS:", self.network.dns_server.to_text()));
        r
    }
}

} // verus!
