//! The decisions of the self-updater: whether a newer release exists, which
//! release assets belong to this platform, and whether a download is intact.

use crate::error::ErrorKind;
use crate::text::{contains_str, has_substring, push_char};
use vstd::prelude::*;
use vstd::string::StringExecFns;

verus! {

/// The release of this program, as a date `YYYYMMDD`.
pub const CURRENT_VERSION: u64 = 20200601;

/// The MD5 checksums, as lowercase hexadecimal, of the release archive of each
/// platform.
pub struct Checksum {
    pub linux: String,
    pub windows: String,
    pub macos: String,
}

/// What the project publishes about its latest release.
pub struct Latest {
    pub version: u64,
    pub checksum: Checksum,
}

/// One downloadable file of a release.
pub struct ReleaseAsset {
    pub name: String,
    pub size: u32,
    pub browser_download_url: String,
}

/// A published release.
pub struct Release {
    pub assets: Vec<ReleaseAsset>,
}

/// The platforms that releases are built for.
#[derive(Clone, Copy, Debug, PartialEq, Eq)]
pub enum Platform {
    Linux,
    Windows,
    MacOs,
}

/// The state of the updater: what it knows of the latest release.
pub struct Updater {
    pub latest: Option<Latest>,
}

impl Checksum {
    pub fn new(linux: String, windows: String, macos: String) -> (c: Checksum)
        ensures
            c.linux == linux,
            c.windows == windows,
            c.macos == macos,
    {
        Checksum { linux, windows, macos }
    }

    fn copy(&self) -> (c: Checksum)
        ensures
            c == *self,
    {
        Checksum {
            linux: self.linux.clone(),
            windows: self.windows.clone(),
            macos: self.macos.clone(),
        }
    }
}

impl Latest {
    pub fn new(version: u64, checksum: Checksum) -> (l: Latest)
        ensures
            l.version == version,
            l.checksum == checksum,
    {
        Latest { version, checksum }
    }

    fn copy(&self) -> (l: Latest)
        ensures
            l == *self,
    {
        Latest { version: self.version, checksum: self.checksum.copy() }
    }
}

/// The word that names a platform in the names of release assets.
pub open spec fn platform_keyword(p: Platform) -> Seq<char> {
    match p {
        Platform::Linux => seq!['l', 'i', 'n', 'u', 'x'],
        Platform::Windows => seq!['w', 'i', 'n', 'd', 'o', 'w', 's'],
        Platform::MacOs => seq!['m', 'a', 'c', 'o', 's'],
    }
}

fn keyword(p: Platform) -> (r: &'static str)
    ensures
        r@ == platform_keyword(p),
{
    match p {
        Platform::Linux => {
            proof {
                reveal_strlit("linux");
            }
            assert("linux"@ =~= platform_keyword(p));
            "linux"
        },
        Platform::Windows => {
            proof {
                reveal_strlit("windows");
            }
            assert("windows"@ =~= platform_keyword(p));
            "windows"
        },
        Platform::MacOs => {
            proof {
                reveal_strlit("macos");
            }
            assert("macos"@ =~= platform_keyword(p));
            "macos"
        },
    }
}

/// The checksum published for a platform.
pub open spec fn checksum_for(c: Checksum, p: Platform) -> Seq<char> {
    match p {
        Platform::Linux => c.linux@,
        Platform::Windows => c.windows@,
        Platform::MacOs => c.macos@,
    }
}

/// Each platform's download is checked against the checksum published under
/// that platform's own name.
pub proof fn lemma_checksum_fields(c: Checksum)
    ensures
        checksum_for(c, Platform::Linux) == c.linux@,
        checksum_for(c, Platform::Windows) == c.windows@,
        checksum_for(c, Platform::MacOs) == c.macos@,
{
}

/// Release assets are told apart by the words `linux`, `windows` and `macos`
/// in their names.
pub proof fn lemma_platform_keywords()
    ensures
        platform_keyword(Platform::Linux) == "linux"@,
        platform_keyword(Platform::Windows) == "windows"@,
        platform_keyword(Platform::MacOs) == "macos"@,
{
    reveal_strlit("linux");
    reveal_strlit("windows");
    reveal_strlit("macos");
    assert(platform_keyword(Platform::Linux) =~= "linux"@);
    assert(platform_keyword(Platform::Windows) =~= "windows"@);
    assert(platform_keyword(Platform::MacOs) =~= "macos"@);
}

/// The positions, in order, of the assets whose names contain `kw`.
pub open spec fn matching_assets(names: Seq<Seq<char>>, kw: Seq<char>) -> Seq<usize>
    decreases names.len(),
{
    if names.len() == 0 {
        seq![]
    } else if has_substring(names.last(), kw) {
        matching_assets(names.drop_last(), kw).push((names.len() - 1) as usize)
    } else {
        matching_assets(names.drop_last(), kw)
    }
}

/// The chosen positions are in range and strictly increasing, and a position
/// is chosen exactly when the name there contains `kw`.
pub proof fn lemma_matching_assets(names: Seq<Seq<char>>, kw: Seq<char>)
    requires
        names.len() <= usize::MAX,
    ensures
        forall|j: int|
            0 <= j < matching_assets(names, kw).len() ==> #[trigger] matching_assets(names, kw)[j]
                < names.len(),
        forall|j: int, k: int|
            0 <= j < k < matching_assets(names, kw).len() ==> #[trigger] matching_assets(
                names,
                kw,
            )[j] < #[trigger] matching_assets(names, kw)[k],
        forall|i: usize|
            i < names.len() ==> (#[trigger] matching_assets(names, kw).contains(i)
                <==> has_substring(names[i as int], kw)),
    decreases names.len(),
{
    if names.len() > 0 {
        let m = matching_assets(names, kw);
        let p = names.drop_last();
        let mp = matching_assets(p, kw);
        lemma_matching_assets(p, kw);
        let n = (names.len() - 1) as usize;
        if has_substring(names.last(), kw) {
            assert(m == mp.push(n));
            assert forall|i: usize| i < names.len() implies (#[trigger] m.contains(i)
                <==> has_substring(names[i as int], kw)) by {
                if i < n {
                    assert(p[i as int] == names[i as int]);
                    if mp.contains(i) {
                        let j = choose|j: int| 0 <= j < mp.len() && mp[j] == i;
                        assert(m[j] == mp[j]);
                    }
                    if m.contains(i) {
                        let j = choose|j: int| 0 <= j < m.len() && m[j] == i;
                        if j < mp.len() {
                            assert(mp[j] == m[j]);
                        }
                    }
                } else {
                    assert(m[mp.len() as int] == n);
                }
            }
        } else {
            assert(m == mp);
            assert forall|i: usize| i < names.len() implies (#[trigger] m.contains(i)
                <==> has_substring(names[i as int], kw)) by {
                if i < n {
                    assert(p[i as int] == names[i as int]);
                } else {
                    if m.contains(i) {
                        let j = choose|j: int| 0 <= j < m.len() && m[j] == i;
                        assert(mp[j] < p.len());
                    }
                }
            }
        }
    }
}

/// An asset is taken for Linux, Windows or macOS exactly when its name contains
/// `linux`, `windows` or `macos`, wherever in the name.
pub proof fn lemma_platform_assets(names: Seq<Seq<char>>, i: usize)
    requires
        names.len() <= usize::MAX,
        i < names.len(),
    ensures
        matching_assets(names, platform_keyword(Platform::Linux)).contains(i) <==> has_substring(
            names[i as int],
            "linux"@,
        ),
        matching_assets(names, platform_keyword(Platform::Windows)).contains(i) <==> has_substring(
            names[i as int],
            "windows"@,
        ),
        matching_assets(names, platform_keyword(Platform::MacOs)).contains(i) <==> has_substring(
            names[i as int],
            "macos"@,
        ),
{
    lemma_platform_keywords();
    lemma_matching_assets(names, platform_keyword(Platform::Linux));
    lemma_matching_assets(names, platform_keyword(Platform::Windows));
    lemma_matching_assets(names, platform_keyword(Platform::MacOs));
}

pub open spec fn asset_names(assets: Seq<ReleaseAsset>) -> Seq<Seq<char>> {
    assets.map_values(|a: ReleaseAsset| a.name@)
}

impl Release {
    /// The positions, in order, of the assets built for `platform`: those whose
    /// name contains the platform's word.
    pub fn assets_for(&self, platform: Platform) -> (r: Vec<usize>)
        ensures
            r@ == matching_assets(asset_names(self.assets@), platform_keyword(platform)),
            forall|i: usize|
                i < self.assets@.len() ==> (#[trigger] r@.contains(i) <==> has_substring(
                    self.assets@[i as int].name@,
                    platform_keyword(platform),
                )),
    {
        let kw = keyword(platform);
        let ghost names = asset_names(self.assets@);
        let mut r: Vec<usize> = Vec::new();
        let mut i: usize = 0;
        assert(names.take(0) =~= Seq::<Seq<char>>::empty());
        while i < self.assets.len()
            invariant
                i <= self.assets@.len(),
                names == asset_names(self.assets@),
                kw@ == platform_keyword(platform),
                r@ == matching_assets(names.take(i as int), kw@),
            decreases self.assets@.len() - i,
        {
            assert(names.take(i + 1).drop_last() =~= names.take(i as int));
            assert(names.take(i + 1).last() == self.assets@[i as int].name@);
            if contains_str(self.assets[i].name.as_str(), kw) {
                r.push(i);
            }
            i += 1;
        }
        assert(names.take(i as int) =~= names);
        proof {
            lemma_matching_assets(names, kw@);
            assert forall|j: usize| j < self.assets@.len() implies (#[trigger] r@.contains(j)
                <==> has_substring(self.assets@[j as int].name@, platform_keyword(platform))) by {
                assert(names[j as int] == self.assets@[j as int].name@);
            }
        }
        r
    }
}

/// The MD5 digest of `data` (16 bytes), as `md5::compute` gives it.
pub uninterp spec fn md5_digest(data: Seq<u8>) -> Seq<u8>;

/// Trusted: `md5::compute` returns the MD5 digest of `data`; its bytes are
/// taken out of the returned `Digest`.
#[verifier::external_body]
fn md5_compute(data: &[u8]) -> (d: Vec<u8>)
    ensures
        d@ == md5_digest(data@),
{
    md5::compute(data).0.to_vec()
}

/// The lowercase hexadecimal digit of `v`, for `v < 16`.
pub open spec fn hex_digit(v: u8) -> char {
    if v < 10 {
        (('0' as u8) + v) as char
    } else {
        (('a' as u8) + v - 10) as char
    }
}

/// Bytes in lowercase hexadecimal, two digits per byte.
pub open spec fn hex_lower(bytes: Seq<u8>) -> Seq<char>
    decreases bytes.len(),
{
    if bytes.len() == 0 {
        seq![]
    } else {
        hex_lower(bytes.drop_last()) + seq![
            hex_digit(bytes.last() / 16),
            hex_digit(bytes.last() % 16),
        ]
    }
}

/// Digests are written in lowercase: the digit of `v` below 16 is the `v`-th
/// character of `0123456789abcdef`.
pub proof fn lemma_hex_digits(v: u8)
    requires
        v < 16,
    ensures
        hex_digit(v) == "0123456789abcdef"@[v as int],
{
    reveal_strlit("0123456789abcdef");
    let s = "0123456789abcdef"@;
    if v == 0 {
        assert(s[0] == '0');
        assert(hex_digit(0u8) == '0');
    } else if v == 1 {
        assert(s[1] == '1');
        assert(hex_digit(1u8) == '1');
    } else if v == 2 {
        assert(s[2] == '2');
        assert(hex_digit(2u8) == '2');
    } else if v == 3 {
        assert(s[3] == '3');
        assert(hex_digit(3u8) == '3');
    } else if v == 4 {
        assert(s[4] == '4');
        assert(hex_digit(4u8) == '4');
    } else if v == 5 {
        assert(s[5] == '5');
        assert(hex_digit(5u8) == '5');
    } else if v == 6 {
        assert(s[6] == '6');
        assert(hex_digit(6u8) == '6');
    } else if v == 7 {
        assert(s[7] == '7');
        assert(hex_digit(7u8) == '7');
    } else if v == 8 {
        assert(s[8] == '8');
        assert(hex_digit(8u8) == '8');
    } else if v == 9 {
        assert(s[9] == '9');
        assert(hex_digit(9u8) == '9');
    } else if v == 10 {
        assert(s[10] == 'a');
        assert(hex_digit(10u8) == 'a');
    } else if v == 11 {
        assert(s[11] == 'b');
        assert(hex_digit(11u8) == 'b');
    } else if v == 12 {
        assert(s[12] == 'c');
        assert(hex_digit(12u8) == 'c');
    } else if v == 13 {
        assert(s[13] == 'd');
        assert(hex_digit(13u8) == 'd');
    } else if v == 14 {
        assert(s[14] == 'e');
        assert(hex_digit(14u8) == 'e');
    } else if v == 15 {
        assert(s[15] == 'f');
        assert(hex_digit(15u8) == 'f');
    }
}

/// Each byte becomes two lowercase hexadecimal digits, the high half first.
pub proof fn lemma_hex_lower(bytes: Seq<u8>)
    ensures
        hex_lower(bytes).len() == 2 * bytes.len(),
        forall|i: int|
            0 <= i < bytes.len() ==> hex_lower(bytes)[2 * i] == "0123456789abcdef"@[(#[trigger] bytes[i]
                / 16) as int] && hex_lower(bytes)[2 * i + 1] == "0123456789abcdef"@[(bytes[i]
                % 16) as int],
    decreases bytes.len(),
{
    if bytes.len() > 0 {
        let p = bytes.drop_last();
        let b = bytes.last();
        lemma_hex_lower(p);
        lemma_hex_digits(b / 16);
        lemma_hex_digits(b % 16);
        let h = hex_lower(bytes);
        assert(h == hex_lower(p) + seq![hex_digit(b / 16), hex_digit(b % 16)]);
        assert forall|i: int| 0 <= i < bytes.len() implies h[2 * i] == "0123456789abcdef"@[(
        #[trigger] bytes[i] / 16) as int] && h[2 * i + 1] == "0123456789abcdef"@[(bytes[i]
            % 16) as int] by {
            if i < p.len() {
                assert(bytes[i] == p[i]);
                assert(h[2 * i] == hex_lower(p)[2 * i]);
                assert(h[2 * i + 1] == hex_lower(p)[2 * i + 1]);
            } else {
                assert(bytes[i] == b);
                assert(h[2 * i] == hex_digit(b / 16));
                assert(h[2 * i + 1] == hex_digit(b % 16));
            }
        }
    }
}

fn digit(v: u8) -> (c: char)
    requires
        v < 16,
    ensures
        c == hex_digit(v),
{
    if v < 10 {
        (48u8 + v) as char
    } else {
        (97u8 + v - 10) as char
    }
}

/// `bytes` in lowercase hexadecimal.
pub fn to_hex_lower(bytes: &Vec<u8>) -> (s: String)
    ensures
        s@ == hex_lower(bytes@),
{
    let mut s = String::new();
    let mut i: usize = 0;
    assert(bytes@.take(0) =~= Seq::<u8>::empty());
    while i < bytes.len()
        invariant
            i <= bytes@.len(),
            s@ == hex_lower(bytes@.take(i as int)),
        decreases bytes@.len() - i,
    {
        let b = bytes[i];
        assert(bytes@.take(i + 1).drop_last() =~= bytes@.take(i as int));
        assert(bytes@.take(i + 1).last() == b);
        push_char(&mut s, digit(b / 16));
        push_char(&mut s, digit(b % 16));
        assert(s@ =~= hex_lower(bytes@.take(i + 1)));
        i += 1;
    }
    assert(bytes@.take(i as int) =~= bytes@);
    s
}

/// The hexadecimal MD5 digest of `data`.
pub fn md5_hex(data: &[u8]) -> (s: String)
    ensures
        s@ == hex_lower(md5_digest(data@)),
{
    let d = md5_compute(data);
    to_hex_lower(&d)
}

impl Updater {
    /// An updater that knows nothing of the latest release yet.
    pub fn new() -> (u: Updater)
        ensures
            u.latest is None,
    {
        Updater { latest: None }
    }

    /// Records what was fetched about the latest release and hands it back; a
    /// failed fetch leaves the updater as it was and hands the error back.
    pub fn get_latest_info(&mut self, fetched: Result<Latest, ErrorKind>) -> (r: Result<
        Latest,
        ErrorKind,
    >)
        ensures
            match fetched {
                Ok(l) => final(self).latest == Some(l) && r == Ok::<Latest, ErrorKind>(l),
                Err(e) => final(self).latest == old(self).latest && r == Err::<Latest, ErrorKind>(
                    e,
                ),
            },
    {
        match fetched {
            Ok(l) => {
                let copy = l.copy();
                self.latest = Some(l);
                Ok(copy)
            },
            Err(e) => Err(e),
        }
    }

    /// Whether the latest release is newer than this program.
    pub fn is_updatable(&self) -> (r: bool)
        requires
            self.latest is Some,
        ensures
            r == (CURRENT_VERSION < self.latest->Some_0.version),
    {
        let latest = self.latest.as_ref().unwrap();
        CURRENT_VERSION < latest.version
    }

    /// Checks a downloaded release archive against the checksum published for
    /// `platform`: its hexadecimal MD5 digest must equal that checksum.
    pub fn verify_download(&self, platform: Platform, data: &[u8]) -> (r: Result<(), ErrorKind>)
        requires
            self.latest is Some,
        ensures
            r is Ok <==> hex_lower(md5_digest(data@)) == checksum_for(
                self.latest->Some_0.checksum,
                platform,
            ),
            platform == Platform::Linux ==> (r is Ok <==> hex_lower(md5_digest(data@))
                == self.latest->Some_0.checksum.linux@),
            platform == Platform::Windows ==> (r is Ok <==> hex_lower(md5_digest(data@))
                == self.latest->Some_0.checksum.windows@),
            platform == Platform::MacOs ==> (r is Ok <==> hex_lower(md5_digest(data@))
                == self.latest->Some_0.checksum.macos@),
            r matches Err(e) ==> e matches ErrorKind::String(m) && m@ == "Download corrupt"@,
    {
        let latest = self.latest.as_ref().unwrap();
        let expected = match platform {
            Platform::Linux => &latest.checksum.linux,
            Platform::Windows => &latest.checksum.windows,
            Platform::MacOs => &latest.checksum.macos,
        };
        let digest = md5_hex(data);
        if digest == *expected {
            Ok(())
        } else {
            Err(ErrorKind::String(String::from_str("Download corrupt")))
        }
    }
}


/// The bytes that reading the entry `name` of the zip archive `archive` yields
/// (up to the first read error, if decompressing fails part-way), or `None`
/// when the archive cannot be opened or has no such entry.
pub uninterp spec fn zip_entry(archive: Seq<u8>, name: Seq<char>) -> Option<Seq<u8>>;

/// Trusted: opens `archive` with `zip::ZipArchive::new` over an in-memory
/// cursor, looks the entry up with `ZipArchive::by_name` and reads it with
/// `read_to_end`, keeping what was read even when the read stops on an error.
/// The bytes are named by `zip_entry`; an error in opening the archive or
/// finding the entry is turned into its message.
#[verifier::external_body]
fn zip_read_entry(archive: &[u8], name: &str) -> (r: Result<Vec<u8>, String>)
    ensures
        match r {
            Ok(v) => zip_entry(archive@, name@) == Some(v@),
            Err(_) => zip_entry(archive@, name@) is None,
        },
{
    let cursor = std::io::Cursor::new(archive);
    let mut zip = zip::ZipArchive::new(cursor).map_err(|e| e.to_string())?;
    let mut file = zip.by_name(name).map_err(|e| e.to_string())?;
    let mut buf = Vec::new();
    let _ = std::io::Read::read_to_end(&mut file, &mut buf);
    Ok(buf)
}

/// The name of the program inside a release archive.
pub open spec fn program_name(p: Platform) -> Seq<char> {
    match p {
        Platform::Windows => "bebasin.exe"@,
        _ => "bebasin"@,
    }
}

fn program_file(p: Platform) -> (r: &'static str)
    ensures
        r@ == program_name(p),
{
    match p {
        Platform::Windows => "bebasin.exe",
        _ => "bebasin",
    }
}

/// The program is the archive entry `bebasin` on Linux and macOS, and
/// `bebasin.exe` on Windows.
pub proof fn lemma_program_names()
    ensures
        program_name(Platform::Linux) == "bebasin"@,
        program_name(Platform::MacOs) == "bebasin"@,
        program_name(Platform::Windows) == "bebasin.exe"@,
        program_name(Platform::Linux).len() == 7,
        program_name(Platform::Windows).len() == 11,
{
    reveal_strlit("bebasin");
    reveal_strlit("bebasin.exe");
}

impl Updater {
    /// The program inside a downloaded release archive: the archive must match
    /// the checksum published for `platform`, and the program is the archive's
    /// entry named after the platform's executable.
    pub fn extract_update(&self, platform: Platform, archive: &[u8]) -> (r: Result<
        Vec<u8>,
        ErrorKind,
    >)
        requires
            self.latest is Some,
        ensures
            hex_lower(md5_digest(archive@)) != checksum_for(self.latest->Some_0.checksum, platform)
                ==> (r matches Err(ErrorKind::String(m)) && m@ == "Download corrupt"@),
            hex_lower(md5_digest(archive@)) == checksum_for(self.latest->Some_0.checksum, platform)
                ==> match r {
                Ok(v) => zip_entry(archive@, program_name(platform)) == Some(v@),
                Err(e) => zip_entry(archive@, program_name(platform)) is None && e is ZipError,
            },
    {
        match self.verify_download(platform, archive) {
            Ok(()) => {},
            Err(e) => {
                return Err(e);
            },
        }
        match zip_read_entry(archive, program_file(platform)) {
            Ok(v) => Ok(v),
            Err(msg) => Err(ErrorKind::ZipError(msg)),
        }
    }
}

} // verus!
