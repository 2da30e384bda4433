//! The rules of the web interface: who may connect, when a scan starts, and what is
//! answered to a request.

use vstd::prelude::*;

use crate::matcher::DuplicateGroup;
use crate::path::{extension, paths_equal};
use crate::text::{concat2, concat3, contains, copy, decimal, same_text, to_uppercase};

verus! {

// --- Access ---

/// An IP address.
#[derive(Debug, Clone, Copy, PartialEq, Eq, Structural)]
pub enum Ip {
    /// An IPv4 address.
    V4(u32),
    /// An IPv6 address.
    V6(u128),
}

/// A range of IP addresses: those that share the first `prefix` bits with `addr`.
#[derive(Debug, Clone, Copy, PartialEq, Eq, Structural)]
pub enum Net {
    /// A range of IPv4 addresses.
    V4 {
        /// An address in the range.
        addr: u32,
        /// How many bits are shared.
        prefix: u8,
    },
    /// A range of IPv6 addresses.
    V6 {
        /// An address in the range.
        addr: u128,
        /// How many bits are shared.
        prefix: u8,
    },
}

impl Net {
    /// The prefix is no longer than an address.
    pub open spec fn wf(self) -> bool {
        match self {
            Net::V4 { addr, prefix } => prefix <= 32,
            Net::V6 { addr, prefix } => prefix <= 128,
        }
    }

    /// Whether it is a range of IPv6 addresses, its address and its prefix.
    pub open spec fn parts(self) -> (bool, nat, nat) {
        match self {
            Net::V4 { addr, prefix } => (false, addr as nat, prefix as nat),
            Net::V6 { addr, prefix } => (true, addr as nat, prefix as nat),
        }
    }

    /// Whether the range holds an address. One of the other family it does not hold.
    pub open spec fn holds(self, ip: Ip) -> bool {
        match (self, ip) {
            (Net::V4 { addr, prefix }, Ip::V4(a)) => same_leading_bits(
                addr as nat,
                a as nat,
                (32 - prefix) as nat,
            ),
            (Net::V6 { addr, prefix }, Ip::V6(a)) => same_leading_bits(
                addr as nat,
                a as nat,
                (128 - prefix) as nat,
            ),
            _ => false,
        }
    }

    /// Whether the range holds an address.
    pub fn contains(&self, ip: Ip) -> (r: bool)
        requires
            self.wf(),
        ensures
            r == self.holds(ip),
    {
        match (*self, ip) {
            (Net::V4 { addr, prefix }, Ip::V4(a)) => leading_bits_match(
                addr as u128,
                a as u128,
                32 - prefix,
            ),
            (Net::V6 { addr, prefix }, Ip::V6(a)) => leading_bits_match(addr, a, 128 - prefix),
            _ => false,
        }
    }
}

/// Whether two addresses are equal but for their last `rest` bits.
pub open spec fn same_leading_bits(a: nat, b: nat, rest: nat) -> bool {
    a / vstd::arithmetic::power2::pow2(rest) == b / vstd::arithmetic::power2::pow2(rest)
}

fn leading_bits_match(a: u128, b: u128, rest: u8) -> (r: bool)
    requires
        rest <= 128,
    ensures
        r == same_leading_bits(a as nat, b as nat, rest as nat),
{
    if rest == 128 {
        proof {
            let size = vstd::arithmetic::power2::pow2(128);
            vstd::arithmetic::power2::lemma2_to64_rest();
            vstd::arithmetic::power2::lemma_pow2_adds(64, 64);
            assert(size == 0x1_0000_0000_0000_0000_0000_0000_0000_0000) by {
                assert(0x1_0000_0000_0000_0000 * 0x1_0000_0000_0000_0000
                    == 0x1_0000_0000_0000_0000_0000_0000_0000_0000int) by (nonlinear_arith);
            }
            vstd::arithmetic::div_mod::lemma_basic_div(a as int, size as int);
            vstd::arithmetic::div_mod::lemma_basic_div(b as int, size as int);
        }
        return true;
    }
    let shift: u128 = rest as u128;
    proof {
        vstd::bits::lemma_u128_shr_is_div(a, shift);
        vstd::bits::lemma_u128_shr_is_div(b, shift);
    }
    (a >> shift) == (b >> shift)
}

/// An address as it is looked up: an IPv4 address that is written as an IPv6 address
/// (`::ffff:a.b.c.d`) is the IPv4 address.
pub open spec fn plain_ip(ip: Ip) -> Ip {
    match ip {
        Ip::V4(a) => Ip::V4(a),
        Ip::V6(a) => if a / 0x1_0000_0000 == 0xffff {
            Ip::V4((a % 0x1_0000_0000) as u32)
        } else {
            Ip::V6(a)
        },
    }
}

/// An address as it is looked up: an IPv4 address that is written as an IPv6 address
/// is the IPv4 address.
pub fn normalize_ip(ip: Ip) -> (r: Ip)
    ensures
        r == plain_ip(ip),
{
    match ip {
        Ip::V4(a) => Ip::V4(a),
        Ip::V6(a) => if a / 0x1_0000_0000 == 0xffff {
            Ip::V4((a % 0x1_0000_0000) as u32)
        } else {
            Ip::V6(a)
        },
    }
}

/// Whether one of some ranges holds an address.
pub open spec fn some_net_holds(nets: Seq<Net>, ip: Ip) -> bool {
    exists|k: int| 0 <= k < nets.len() && (#[trigger] nets[k]).holds(ip)
}

/// Whether a client may connect: anyone where no ranges are given, and otherwise one
/// whose address is known and in a range.
pub open spec fn may_connect(nets: Seq<Net>, client: Option<Ip>) -> bool {
    nets.len() == 0 || (client is Some && some_net_holds(nets, plain_ip(client->0)))
}

/// Whether a client may connect: anyone where no ranges are given, and otherwise one
/// whose address is known and in a range.
pub fn ip_allowed(nets: &Vec<Net>, client: Option<Ip>) -> (r: bool)
    requires
        forall|k: int| 0 <= k < nets@.len() ==> (#[trigger] nets@[k]).wf(),
    ensures
        r == may_connect(nets@, client),
{
    if nets.len() == 0 {
        return true;
    }
    match client {
        None => false,
        Some(ip) => {
            let plain = normalize_ip(ip);
            let mut k: usize = 0;
            while k < nets.len()
                invariant
                    k <= nets@.len(),
                    nets@.len() > 0,
                    client == Some(ip),
                    plain == plain_ip(ip),
                    forall|j: int| 0 <= j < nets@.len() ==> (#[trigger] nets@[j]).wf(),
                    forall|j: int| 0 <= j < k ==> !(#[trigger] nets@[j]).holds(plain),
                decreases nets@.len() - k,
            {
                if nets[k].contains(plain) {
                    return true;
                }
                k = k + 1;
            }
            false
        },
    }
}

/// What `ipnet::IpNet` reads from a text: whether it is a range of IPv6 addresses, the
/// address and the prefix.
pub uninterp spec fn parsed_network(text: Seq<char>) -> Option<(bool, nat, nat)>;

/// The parts of a range that may be missing.
pub open spec fn opt_parts(net: Option<Net>) -> Option<(bool, nat, nat)> {
    match net {
        Some(n) => Some(n.parts()),
        None => None,
    }
}

/// `ipnet::IpNet::from_str`: the range that a text in CIDR notation stands for, with a
/// prefix no longer than an address. Which texts stand for which range is left to its
/// name.
#[verifier::external_body]
fn read_network(text: &str) -> (r: Option<Net>)
    ensures
        opt_parts(r) == parsed_network(text@),
        r is Some ==> r->0.wf(),
{
    match text.parse::<ipnet::IpNet>() {
        Ok(ipnet::IpNet::V4(n)) => Some(
            Net::V4 { addr: u32::from(n.addr()), prefix: n.prefix_len() },
        ),
        Ok(ipnet::IpNet::V6(n)) => Some(
            Net::V6 { addr: u128::from(n.addr()), prefix: n.prefix_len() },
        ),
        Err(_) => None,
    }
}

/// A range in CIDR notation: an address alone is the range that holds only it.
pub open spec fn cidr_text(text: Seq<char>) -> Seq<char> {
    if crate::text::has_part(text, "/"@) {
        text
    } else if crate::text::has_part(text, ":"@) {
        text + "/128"@
    } else {
        text + "/32"@
    }
}

/// Writes an address alone as the range that holds only it.
pub fn to_cidr(text: &str) -> (r: String)
    ensures
        r@ == cidr_text(text@),
{
    if contains(text, "/") {
        text.to_owned()
    } else if contains(text, ":") {
        concat2(text, "/128")
    } else {
        concat2(text, "/32")
    }
}

/// What is said of a text that is no address and no range.
pub open spec fn refused_network_text(text: Seq<char>) -> Seq<char> {
    "Invalid IP address or range: '"@ + text + "'"@
}

/// A range that was read from `text`, or what is said where none was.
pub fn network_or_refusal(text: &str, found: Option<Net>) -> (r: Result<Net, String>)
    ensures
        match found {
            Some(net) => r == Ok::<Net, String>(net),
            None => r matches Err(e) && e@ == refused_network_text(text@),
        },
{
    match found {
        Some(net) => Ok(net),
        None => Err(concat3("Invalid IP address or range: '", text, "'")),
    }
}

/// Reads an IP address or a range in CIDR notation.
pub fn parse_network(text: &str) -> (r: Result<Net, String>)
    ensures
        match parsed_network(cidr_text(text@)) {
            Some(parts) => r matches Ok(net) && net.parts() == parts && net.wf(),
            None => r matches Err(e) && e@ == refused_network_text(text@),
        },
{
    let cidr = to_cidr(text);
    network_or_refusal(text, read_network(cidr.as_str()))
}

/// Where no ranges are given, everyone may connect.
pub proof fn law_an_empty_list_permits_all(client: Option<Ip>)
    ensures
        may_connect(Seq::empty(), client),
{
}

/// An IPv4 address and the IPv6 address that stands for it are treated alike.
pub proof fn law_mapped_addresses_are_ipv4_addresses(nets: Seq<Net>, addr: u32)
    ensures
        may_connect(nets, Some(Ip::V6((0xffff_0000_0000 + addr) as u128))) == may_connect(
            nets,
            Some(Ip::V4(addr)),
        ),
{
}

/// Where ranges are given, one more shuts nobody out.
pub proof fn law_a_further_range_shuts_nobody_out(nets: Seq<Net>, net: Net, client: Option<Ip>)
    requires
        nets.len() > 0,
        may_connect(nets, client),
    ensures
        may_connect(nets.push(net), client),
{
    let ip = plain_ip(client->0);
    let k = choose|k: int| 0 <= k < nets.len() && (#[trigger] nets[k]).holds(ip);
    assert(nets.push(net)[k].holds(ip));
}

/// A range whose prefix is a whole address holds that address alone.
pub proof fn law_a_full_prefix_is_one_address(v4: u32, other_v4: u32, v6: u128, other_v6: u128)
    ensures
        (Net::V4 { addr: v4, prefix: 32 }).holds(Ip::V4(other_v4)) == (v4 == other_v4),
        (Net::V6 { addr: v6, prefix: 128 }).holds(Ip::V6(other_v6)) == (v6 == other_v6),
{
    vstd::arithmetic::power2::lemma2_to64();
    assert(vstd::arithmetic::power2::pow2(0) == 1);
    vstd::arithmetic::div_mod::lemma_div_basics(v4 as int);
    vstd::arithmetic::div_mod::lemma_div_basics(other_v4 as int);
    vstd::arithmetic::div_mod::lemma_div_basics(v6 as int);
    vstd::arithmetic::div_mod::lemma_div_basics(other_v6 as int);
}

// --- Answers ---

/// What is answered to a request that is refused: the HTTP status and the reason.
#[derive(Debug)]
pub struct Refusal {
    /// The HTTP status code.
    pub status: u16,
    /// The reason.
    pub message: String,
}

impl Refusal {
    /// Whether it is this status with this reason.
    pub open spec fn says(self, status: u16, message: Seq<char>) -> bool {
        self.status == status && self.message@ == message
    }
}

/// What is answered to a client that may not connect.
pub fn access_denied() -> (r: Refusal)
    ensures
        r.says(403, "Access denied"@),
{
    Refusal { status: 403, message: "Access denied".to_owned() }
}

// --- Scanning ---

/// Whether a scan is running, and what is said of it.
#[derive(Debug)]
pub struct ScanStatus {
    /// Whether a scan is running.
    pub scanning: bool,
    /// What is said of the last or current scan.
    pub message: String,
}

impl Default for ScanStatus {
    fn default() -> (r: Self)
        ensures
            !r.scanning,
            r.message@ == "Idle"@,
    {
        ScanStatus { scanning: false, message: "Idle".to_owned() }
    }
}

impl ScanStatus {
    /// The status of a scan of some paths that starts.
    pub fn started(paths: usize) -> (r: Self)
        ensures
            r.scanning,
            r.message@ == "Scanning "@ + crate::text::decimal_text(paths as nat) + " path(s)..."@,
    {
        let count = decimal(paths as u128);
        ScanStatus { scanning: true, message: concat3("Scanning ", count.as_str(), " path(s)...") }
    }

    /// The status once a scan has ended, with what stopped it, if anything did.
    pub fn finished(error: &Option<String>) -> (r: Self)
        ensures
            !r.scanning,
            r.message@ == match error {
                None => "Scan complete"@,
                Some(e) => "Scan failed: "@ + e@,
            },
    {
        let message = match error {
            None => "Scan complete".to_owned(),
            Some(e) => concat2("Scan failed: ", e.as_str()),
        };
        ScanStatus { scanning: false, message }
    }
}

/// The paths to scan: those that are asked for, or else those scanned before. Refused
/// while a scan is running, and where there are none.
pub fn scan_paths(scanning: bool, requested: Vec<String>, stored: Vec<String>) -> (r: Result<
    Vec<String>,
    Refusal,
>)
    ensures
        scanning ==> (r matches Err(e) && e.says(409, "Scan already in progress"@)),
        !scanning && requested@.len() > 0 ==> r == Ok::<Vec<String>, Refusal>(requested),
        !scanning && requested@.len() == 0 && stored@.len() > 0 ==> r == Ok::<
            Vec<String>,
            Refusal,
        >(stored),
        !scanning && requested@.len() == 0 && stored@.len() == 0 ==> (r matches Err(e) && e.says(
            400,
            "No paths specified and no previously scanned paths found"@,
        )),
{
    if scanning {
        return Err(Refusal { status: 409, message: "Scan already in progress".to_owned() });
    }
    if requested.len() > 0 {
        Ok(requested)
    } else if stored.len() > 0 {
        Ok(stored)
    } else {
        Err(
            Refusal {
                status: 400,
                message: "No paths specified and no previously scanned paths found".to_owned(),
            },
        )
    }
}

/// Refuses a scan where a path does not exist, with the first such path.
pub fn missing_path(paths: &Vec<String>, exists: &Vec<bool>) -> (r: Option<Refusal>)
    requires
        paths@.len() == exists@.len(),
    ensures
        r is None <==> forall|k: int| 0 <= k < exists@.len() ==> #[trigger] exists@[k],
        r matches Some(e) ==> exists|k: int|
            {
                &&& 0 <= k < paths@.len()
                &&& !(#[trigger] exists@[k])
                &&& forall|j: int| 0 <= j < k ==> #[trigger] exists@[j]
                &&& e.says(400, "Path does not exist: "@ + paths@[k]@)
            },
{
    let mut k: usize = 0;
    while k < paths.len()
        invariant
            k <= paths@.len(),
            paths@.len() == exists@.len(),
            forall|j: int| 0 <= j < k ==> #[trigger] exists@[j],
        decreases paths@.len() - k,
    {
        if !exists[k] {
            let message = concat2("Path does not exist: ", paths[k].as_str());
            return Some(Refusal { status: 400, message });
        }
        k = k + 1;
    }
    None
}

/// How many seconds of audio are fingerprinted where a request does not say.
pub fn default_length() -> (r: u64)
    ensures
        r == 120,
{
    120
}

// --- Actions ---

/// What a request does to a file.
#[derive(Debug, Clone, Copy, PartialEq, Eq, Structural)]
pub enum FileAction {
    /// Moves it to the trash.
    Delete,
    /// Excludes it from the results.
    Exclude,
}

/// The action of a name.
pub open spec fn action_named(name: Seq<char>) -> Option<FileAction> {
    if name == "delete"@ {
        Some(FileAction::Delete)
    } else if name == "exclude"@ {
        Some(FileAction::Exclude)
    } else {
        None
    }
}

/// Whether the group at `g` is the first with an ID.
pub open spec fn first_with_id(groups: Seq<DuplicateGroup>, id: Seq<char>, g: int) -> bool {
    &&& 0 <= g < groups.len()
    &&& groups[g].id@ == id
    &&& forall|k: int| 0 <= k < g ==> (#[trigger] groups[k]).id@ != id
}

/// The position of the first group with an ID.
fn find_group(groups: &Vec<DuplicateGroup>, id: &str) -> (r: Option<usize>)
    ensures
        match r {
            Some(g) => first_with_id(groups@, id@, g as int),
            None => forall|k: int| 0 <= k < groups@.len() ==> (#[trigger] groups@[k]).id@ != id@,
        },
{
    let mut k: usize = 0;
    while k < groups.len()
        invariant
            k <= groups@.len(),
            forall|j: int| 0 <= j < k ==> (#[trigger] groups@[j]).id@ != id@,
        decreases groups@.len() - k,
    {
        if same_text(groups[k].id.as_str(), id) {
            return Some(k);
        }
        k = k + 1;
    }
    None
}

/// The file that a request is about and what it does to it. Refused where there is no
/// such group, no such file in it, or no such action, in this order.
pub fn requested_action(
    groups: &Vec<DuplicateGroup>,
    group_id: &str,
    action: &str,
    file_index: usize,
) -> (r: Result<(FileAction, String), Refusal>)
    ensures
        (forall|k: int| 0 <= k < groups@.len() ==> (#[trigger] groups@[k]).id@ != group_id@) ==> (
        r matches Err(e) && e.says(404, "Group "@ + group_id@ + " not found"@)),
        forall|g: int| #[trigger]
            first_with_id(groups@, group_id@, g) ==> if file_index >= groups@[g].files@.len() {
                r matches Err(e) && e.says(400, "Invalid file index"@)
            } else {
                match action_named(action@) {
                    Some(named) => r matches Ok(pair) && pair.0 == named && pair.1@
                        == groups@[g].files@[file_index as int].path@,
                    None => r matches Err(e) && e.says(
                        400,
                        "Unknown action: "@ + action@ + ". Use: delete, exclude"@,
                    ),
                }
            },
{
    let g: usize = match find_group(groups, group_id) {
        Some(g) => g,
        None => {
            return Err(Refusal { status: 404, message: concat3("Group ", group_id, " not found") });
        },
    };
    proof {
        assert forall|h: int| #[trigger] first_with_id(groups@, group_id@, h) implies h == g by {
            if h < g {
                assert(groups@[h].id@ != group_id@);
            } else if g < h {
                assert(groups@[g as int].id@ != group_id@);
            }
        }
        assert(groups@[g as int].id@ == group_id@);
    }
    if file_index >= groups[g].files.len() {
        return Err(Refusal { status: 400, message: "Invalid file index".to_owned() });
    }
    let path = copy(&groups[g].files[file_index].path);
    if same_text(action, "delete") {
        Ok((FileAction::Delete, path))
    } else if same_text(action, "exclude") {
        Ok((FileAction::Exclude, path))
    } else {
        Err(
            Refusal {
                status: 400,
                message: concat3("Unknown action: ", action, ". Use: delete, exclude"),
            },
        )
    }
}

/// Refuses to move a file to the trash that does not exist.
pub fn delete_refusal(path: &str, exists: bool) -> (r: Option<Refusal>)
    ensures
        exists ==> r is None,
        !exists ==> (r matches Some(e) && e.says(404, "File not found: "@ + path@)),
{
    if exists {
        None
    } else {
        Some(Refusal { status: 404, message: concat2("File not found: ", path) })
    }
}

/// What is answered where an action fails.
pub fn action_failed(action: FileAction, reason: &str) -> (r: Refusal)
    ensures
        r.says(
            500,
            match action {
                FileAction::Delete => "Failed to trash: "@ + reason@,
                FileAction::Exclude => "Failed to exclude: "@ + reason@,
            },
        ),
{
    let message = match action {
        FileAction::Delete => concat2("Failed to trash: ", reason),
        FileAction::Exclude => concat2("Failed to exclude: ", reason),
    };
    Refusal { status: 500, message }
}

/// What is said to have been done by an action.
pub fn action_status(action: FileAction) -> (r: String)
    ensures
        r@ == match action {
            FileAction::Delete => "trashed"@,
            FileAction::Exclude => "excluded"@,
        },
{
    match action {
        FileAction::Delete => "trashed".to_owned(),
        FileAction::Exclude => "excluded".to_owned(),
    }
}

// --- Restoring ---

/// The positions among the first `n` trashed files of those that stood at `path`.
pub open spec fn positions_at(originals: Seq<Seq<char>>, path: Seq<char>, n: int) -> Seq<usize>
    decreases n,
{
    if n <= 0 {
        seq![]
    } else {
        let before = positions_at(originals, path, n - 1);
        if crate::path::same_path(originals[n - 1], path) {
            before.push((n - 1) as usize)
        } else {
            before
        }
    }
}

/// Which trashed files are restored: those that stood at `path`. Refused where there are
/// none.
pub fn files_to_restore(originals: &Vec<String>, path: &str) -> (r: Result<Vec<usize>, Refusal>)
    ensures
        ({
            let found = positions_at(
                crate::text::views(originals@),
                path@,
                originals@.len() as int,
            );
            if found.len() == 0 {
                r matches Err(e) && e.says(404, "Not found in trash: "@ + path@)
            } else {
                r matches Ok(list) && list@ == found
            }
        }),
{
    let ghost views = crate::text::views(originals@);
    let mut out: Vec<usize> = Vec::new();
    let mut n: usize = 0;
    while n < originals.len()
        invariant
            n <= originals@.len(),
            views == crate::text::views(originals@),
            out@ == positions_at(views, path@, n as int),
        decreases originals@.len() - n,
    {
        assert(views[n as int] == originals@[n as int]@);
        if paths_equal(originals[n].as_str(), path) {
            out.push(n);
        }
        n = n + 1;
    }
    if out.len() == 0 {
        Err(Refusal { status: 404, message: concat2("Not found in trash: ", path) })
    } else {
        Ok(out)
    }
}

/// A step of restoring that can fail.
#[derive(Debug, Clone, Copy, PartialEq, Eq, Structural)]
pub enum RestoreStep {
    /// Listing the trash.
    List,
    /// Restoring the files.
    Restore,
}

/// What is answered where a step of restoring fails.
pub fn restore_failed(step: RestoreStep, reason: &str) -> (r: Refusal)
    ensures
        r.says(
            500,
            match step {
                RestoreStep::List => "Failed to list trash: "@ + reason@,
                RestoreStep::Restore => "Failed to restore: "@ + reason@,
            },
        ),
{
    let message = match step {
        RestoreStep::List => concat2("Failed to list trash: ", reason),
        RestoreStep::Restore => concat2("Failed to restore: ", reason),
    };
    Refusal { status: 500, message }
}

/// What is answered where the platform's trash cannot be read.
pub fn restore_unsupported(path: &str) -> (r: Refusal)
    ensures
        r.says(
            501,
            "Restore is not supported on this platform. Restore '"@ + path@
                + "' manually from your system trash."@,
        ),
{
    let message = concat3(
        "Restore is not supported on this platform. Restore '",
        path,
        "' manually from your system trash.",
    );
    Refusal { status: 501, message }
}

// --- Presentation ---

/// The format that is shown for a file: its extension in uppercase.
pub fn format_name(path: &str) -> (r: String)
    ensures
        match crate::path::path_extension(path@) {
            Some(ext) => r@ == crate::text::unicode_uppercase(ext),
            None => r@ == "?"@,
        },
{
    match extension(path) {
        Some(ext) => to_uppercase(ext.as_str()),
        None => "?".to_owned(),
    }
}

// --- Laws ---

proof fn lemma_block(a: nat, b: nat, rest: nat)
    ensures
        same_leading_bits(a, b, rest) <==> a - a % vstd::arithmetic::power2::pow2(rest) <= b < a - a
            % vstd::arithmetic::power2::pow2(rest) + vstd::arithmetic::power2::pow2(rest),
{
    let size = vstd::arithmetic::power2::pow2(rest);
    vstd::arithmetic::power2::lemma_pow2_pos(rest);
    let (q, r) = (a as int / size as int, b as int / size as int);
    vstd::arithmetic::div_mod::lemma_fundamental_div_mod(a as int, size as int);
    vstd::arithmetic::div_mod::lemma_fundamental_div_mod(b as int, size as int);
    vstd::arithmetic::div_mod::lemma_mod_bound(b as int, size as int);
    let low = size * q;
    assert(a - a % size == low);
    if low <= b < low + size {
        vstd::arithmetic::mul::lemma_mul_is_commutative(q, size as int);
        vstd::arithmetic::div_mod::lemma_fundamental_div_mod_converse(
            b as int,
            size as int,
            q,
            b - low,
        );
    }
}

/// A range of IPv4 addresses is the block of 2^(32 - prefix) addresses that its address lies
/// in, and holds no IPv6 address.
pub proof fn law_a_range_is_a_block_of_addresses(addr: u32, prefix: u8, ip: u32, other: u128)
    requires
        prefix <= 32,
    ensures
        ({
            let size = vstd::arithmetic::power2::pow2((32 - prefix) as nat) as int;
            let first = addr as int - addr as int % size;
            (Net::V4 { addr, prefix }).holds(Ip::V4(ip)) <==> first <= ip < first + size
        }),
        !(Net::V4 { addr, prefix }).holds(Ip::V6(other)),
{
    lemma_block(addr as nat, ip as nat, (32 - prefix) as nat);
}

/// A range of IPv6 addresses is the block of 2^(128 - prefix) addresses that its address lies
/// in, and holds no IPv4 address.
pub proof fn law_a_long_range_is_a_block_of_addresses(addr: u128, prefix: u8, ip: u128, other: u32)
    requires
        prefix <= 128,
    ensures
        ({
            let size = vstd::arithmetic::power2::pow2((128 - prefix) as nat) as int;
            let first = addr as int - addr as int % size;
            (Net::V6 { addr, prefix }).holds(Ip::V6(ip)) <==> first <= ip < first + size
        }),
        !(Net::V6 { addr, prefix }).holds(Ip::V4(other)),
{
    lemma_block(addr as nat, ip as nat, (128 - prefix) as nat);
}

/// Where ranges are given, a client connects just where one of them holds its address, and
/// not where its address is unknown. An IPv6 address that stands for no IPv4 address is
/// looked up as it is.
pub proof fn law_only_clients_in_a_range_connect(nets: Seq<Net>, v4: u32, v6: u128)
    requires
        nets.len() > 0,
    ensures
        !may_connect(nets, None),
        may_connect(nets, Some(Ip::V4(v4))) <==> exists|k: int|
            0 <= k < nets.len() && (#[trigger] nets[k]).holds(Ip::V4(v4)),
        !(0xffff_0000_0000 <= v6 <= 0xffff_ffff_ffff) ==> (may_connect(nets, Some(Ip::V6(v6)))
            <==> exists|k: int| 0 <= k < nets.len() && (#[trigger] nets[k]).holds(Ip::V6(v6))),
{
}

proof fn lemma_has_char(text: Seq<char>, pattern: Seq<char>, c: char)
    requires
        pattern == seq![c],
    ensures
        crate::text::has_part(text, pattern) <==> text.contains(c),
{
    if crate::text::has_part(text, pattern) {
        let at = choose|at: int|
            0 <= at && at + pattern.len() <= text.len() && #[trigger] text.subrange(
                at,
                at + pattern.len(),
            ) == pattern;
        assert(text.subrange(at, at + 1)[0] == c);
        assert(text[at] == c);
    }
    if text.contains(c) {
        let at = choose|at: int| 0 <= at < text.len() && text[at] == c;
        assert(text.subrange(at, at + pattern.len()) =~= pattern);
    }
}

/// A text with a slash is taken as a range, and another as one address: with a colon an IPv6
/// address, with its 128 bits, and without one an IPv4 address, with its 32.
pub proof fn law_an_address_alone_is_a_range(text: Seq<char>)
    ensures
        text.contains('/') ==> cidr_text(text) == text,
        !text.contains('/') && text.contains(':') ==> cidr_text(text) == text + seq![
            '/',
            '1',
            '2',
            '8',
        ],
        !text.contains('/') && !text.contains(':') ==> cidr_text(text) == text + seq!['/', '3', '2'],
{
    reveal_strlit("/");
    reveal_strlit(":");
    reveal_strlit("/128");
    reveal_strlit("/32");
    assert("/"@ =~= seq!['/']);
    assert(":"@ =~= seq![':']);
    assert("/128"@ =~= seq!['/', '1', '2', '8']);
    assert("/32"@ =~= seq!['/', '3', '2']);
    lemma_has_char(text, "/"@, '/');
    lemma_has_char(text, ":"@, ':');
}

/// An action is called by its name, and nothing else calls one.
pub proof fn law_actions_have_these_names(name: Seq<char>)
    ensures
        action_named(name) == Some(FileAction::Delete) <==> name == seq![
            'd',
            'e',
            'l',
            'e',
            't',
            'e',
        ],
        action_named(name) == Some(FileAction::Exclude) <==> name == seq![
            'e',
            'x',
            'c',
            'l',
            'u',
            'd',
            'e',
        ],
{
    reveal_strlit("delete");
    reveal_strlit("exclude");
    assert("delete"@ =~= seq!['d', 'e', 'l', 'e', 't', 'e']);
    assert("exclude"@ =~= seq!['e', 'x', 'c', 'l', 'u', 'd', 'e']);
    assert("delete"@.len() == 6 && "exclude"@.len() == 7);
}

/// Where groups share an ID, the first of them is meant: there is one wherever a group has
/// the ID, and no group before it has it.
pub proof fn law_the_first_group_with_an_id_is_meant(
    groups: Seq<DuplicateGroup>,
    id: Seq<char>,
    k: int,
) -> (g: int)
    requires
        0 <= k < groups.len(),
        groups[k].id@ == id,
    ensures
        first_with_id(groups, id, g),
        0 <= g <= k,
        groups[g].id@ == id,
        forall|h: int| #[trigger] first_with_id(groups, id, h) ==> h == g,
    decreases k,
{
    if exists|j: int| 0 <= j < k && (#[trigger] groups[j]).id@ == id {
        let j = choose|j: int| 0 <= j < k && (#[trigger] groups[j]).id@ == id;
        law_the_first_group_with_an_id_is_meant(groups, id, j)
    } else {
        assert forall|h: int| #[trigger] first_with_id(groups, id, h) implies h == k by {
            assert(groups[h].id@ == id);
        }
        k
    }
}

/// A trashed file is restored just where it stood at the path, once, and the files are
/// restored in the order in which they are listed.
pub proof fn law_files_of_the_path_are_restored(originals: Seq<Seq<char>>, path: Seq<char>, n: int)
    requires
        0 <= n <= originals.len() <= usize::MAX,
    ensures
        forall|i: int|
            0 <= i < n ==> (positions_at(originals, path, n).contains(i as usize)
                <==> crate::path::path_components(#[trigger] originals[i])
                == crate::path::path_components(path)),
        forall|k: int|
            0 <= k < positions_at(originals, path, n).len() ==> #[trigger] positions_at(
                originals,
                path,
                n,
            )[k] < n,
        forall|j: int, k: int|
            0 <= j < k < positions_at(originals, path, n).len() ==> #[trigger] positions_at(
                originals,
                path,
                n,
            )[j] < #[trigger] positions_at(originals, path, n)[k],
    decreases n,
{
    if n > 0 {
        law_files_of_the_path_are_restored(originals, path, n - 1);
        let before = positions_at(originals, path, n - 1);
        let found = positions_at(originals, path, n);
        let last = (n - 1) as usize;
        assert forall|i: int| 0 <= i < n implies (found.contains(i as usize)
            <==> crate::path::path_components(#[trigger] originals[i])
            == crate::path::path_components(path)) by {
            if i < n - 1 {
                if before.contains(i as usize) {
                    let k = choose|k: int| 0 <= k < before.len() && before[k] == i as usize;
                    assert(found[k] == i as usize);
                }
                if found.contains(i as usize) {
                    let k = choose|k: int| 0 <= k < found.len() && found[k] == i as usize;
                    assert(k < before.len());
                    assert(before[k] == i as usize);
                }
            } else {
                if crate::path::same_path(originals[i], path) {
                    assert(found[before.len() as int] == last);
                }
                if found.contains(last) && !crate::path::same_path(originals[i], path) {
                    let k = choose|k: int| 0 <= k < found.len() && found[k] == last;
                    assert(before[k] < n - 1);
                }
            }
        }
    }
}

/// A refusal says a status and a reason just where it holds both.
pub proof fn law_a_refusal_says_what_it_holds(refusal: Refusal, status: u16, message: Seq<char>)
    ensures
        refusal.says(status, message) <==> refusal.status == status && refusal.message@ == message,
        refused_network_text(message) == "Invalid IP address or range: '"@ + message + "'"@,
{
}

/// The parts of a range tell it: its family, its address and its prefix.
pub proof fn law_the_parts_tell_a_range(a: Net, b: Net)
    ensures
        a.parts() == b.parts() <==> a == b,
        a.parts().0 <==> a is V6,
        opt_parts(Some(a)) == Some(a.parts()),
        opt_parts(None) is None,
{
}

} // verus!
