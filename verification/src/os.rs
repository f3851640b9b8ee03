//! What the program needs from the operating system: where the hosts file is,
//! who runs the program, and file permissions.

use crate::updater::Platform;
use vstd::prelude::*;

verus! {

/// Where the system hosts file is on each platform.
pub open spec fn hosts_path_of(p: Platform) -> Seq<char> {
    match p {
        Platform::Linux => "/etc/hosts"@,
        Platform::Windows => "C:\\Windows\\System32\\drivers\\etc\\hosts"@,
        Platform::MacOs => "/private/etc/hosts"@,
    }
}

/// Where the system's own hosts file is kept, on each platform, before the
/// blocker's list is merged in.
pub open spec fn hosts_backup_path_of(p: Platform) -> Seq<char> {
    match p {
        Platform::Linux => "/etc/hosts-backup"@,
        Platform::Windows => "C:\\Windows\\System32\\drivers\\etc\\hosts-backup"@,
        Platform::MacOs => "/private/etc/hosts-backup"@,
    }
}

/// The hosts file is `/etc/hosts` on Linux, `/private/etc/hosts` on macOS and
/// `C:\Windows\System32\drivers\etc\hosts` on Windows; its backup sits
/// beside it, under the same name with `-backup` appended.
pub proof fn lemma_hosts_paths(p: Platform)
    ensures
        hosts_path_of(Platform::Linux) == "/etc/hosts"@,
        hosts_path_of(Platform::MacOs) == "/private/etc/hosts"@,
        hosts_path_of(Platform::Windows) == "C:\\Windows\\System32\\drivers\\etc\\hosts"@,
        hosts_backup_path_of(p) == hosts_path_of(p) + "-backup"@,
{
    reveal_strlit("-backup");
    reveal_strlit("/etc/hosts");
    reveal_strlit("/etc/hosts-backup");
    reveal_strlit("/private/etc/hosts");
    reveal_strlit("/private/etc/hosts-backup");
    reveal_strlit("C:\\Windows\\System32\\drivers\\etc\\hosts");
    reveal_strlit("C:\\Windows\\System32\\drivers\\etc\\hosts-backup");
    assert(hosts_backup_path_of(p) =~= hosts_path_of(p) + "-backup"@);
}

/// The system hosts file of `platform`.
pub fn hosts_path(platform: Platform) -> (r: &'static str)
    ensures
        r@ == hosts_path_of(platform),
{
    match platform {
        Platform::Linux => "/etc/hosts",
        Platform::Windows => "C:\\Windows\\System32\\drivers\\etc\\hosts",
        Platform::MacOs => "/private/etc/hosts",
    }
}

/// The backup of the hosts file of `platform`.
pub fn hosts_backup_path(platform: Platform) -> (r: &'static str)
    ensures
        r@ == hosts_backup_path_of(platform),
{
    match platform {
        Platform::Linux => "/etc/hosts-backup",
        Platform::Windows => "C:\\Windows\\System32\\drivers\\etc\\hosts-backup",
        Platform::MacOs => "/private/etc/hosts-backup",
    }
}

/// The effective user id of the running process.
///
/// Trusted: calls `nix::unistd::geteuid` and takes the raw id out of the
/// returned `Uid`. Nothing is claimed of the result: it depends on the process.
#[verifier::external_body]
fn effective_uid() -> u32 {
    nix::unistd::geteuid().as_raw()
}

/// Whether `uid` is the id of root.
///
/// Trusted: `nix::unistd::Uid::is_root`, which in the source compares the id
/// with `ROOT`, the id 0.
#[verifier::external_body]
fn uid_is_root(uid: u32) -> (r: bool)
    ensures
        r == (uid == 0),
{
    nix::unistd::Uid::from_raw(uid).is_root()
}

/// The permission bits of a file whose mode is `st_mode`, with read, write and
/// execute permission for its owner added.
///
/// Trusted: `nix::sys::stat::Mode::from_bits_truncate` keeps the bits of
/// `Mode` (the permission bits and the set-user-id, set-group-id and sticky
/// bits, `0o7777` together), and `Mode::insert` of `S_IRWXU` adds `0o700`.
/// The mode is converted to the platform's `mode_t` (narrower than 32 bits on
/// some platforms, but wide enough for those twelve bits) and back.
#[verifier::external_body]
fn mode_with_owner_rwx(st_mode: u32) -> (r: u32)
    ensures
        r == (st_mode & 0o7777u32) | 0o700u32,
{
    let mut mode = nix::sys::stat::Mode::from_bits_truncate(st_mode as nix::sys::stat::mode_t);
    mode.insert(nix::sys::stat::Mode::S_IRWXU);
    mode.bits() as u32
}

/// The mode that makes a file with mode `st_mode` executable by its owner.
pub fn owner_executable_mode(st_mode: u32) -> (r: u32)
    ensures
        r == (st_mode & 0o7777u32) | 0o700u32,
{
    mode_with_owner_rwx(st_mode)
}

/// Whether a process with effective user id `uid` is reported as having admin
/// access: the program reports it for every user but root.
pub fn has_admin_access_for(uid: u32) -> (r: bool)
    ensures
        r == (uid != 0),
{
    !uid_is_root(uid)
}

/// Whether the running process is reported as having admin access (see
/// `has_admin_access_for`).
pub fn is_has_admin_access() -> bool {
    has_admin_access_for(effective_uid())
}

} // verus!
