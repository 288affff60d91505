//! The decisions around packet capture: recognising VPN/tunnel adapters,
//! picking the capture device, filtering and decoding captured frames,
//! persisting channel mappings and summarising a diagnostic capture.
//! Opening devices and reading packets is left to the caller.
use vstd::prelude::*;
use vstd::string::StringExecFns;
use crate::channel::{channel_for_label, channel_label, is_persistable, ChatChannel};
use crate::hosts::{any_holds, CidrRange, HostFilter};
use crate::ip::IpAddr;
use crate::network::{be16, extract_udp_packet, udp_in_frame};
use crate::photon::{
    chat_of, decode_step, fresh_if_some, ChatMessage, DecoderView, FragmentError, Outcome,
    PhotonDecoder,
};
use crate::text::{
    chars_of, has_substr, i64_text, i64_to_text, lowercase, nat_text, parse_i64, push_decimal,
    to_lowercase,
};

verus! {

broadcast use vstd::string::group_string_axioms;

// ---------------------------------------------------------------------------
// Tunnel adapters
// ---------------------------------------------------------------------------

pub open spec fn is_ascii_alnum(c: char) -> bool {
    ('0' <= c <= '9') || ('a' <= c <= 'z') || ('A' <= c <= 'Z')
}

pub open spec fn all_ascii_digits(s: Seq<char>) -> bool {
    forall|i: int| 0 <= i < s.len() ==> '0' <= #[trigger] s[i] <= '9'
}

/// The runs of ASCII letters and digits of `s`, split at every other
/// character (empty runs included, as `str::split` gives them).
pub open spec fn alnum_tokens(s: Seq<char>) -> Seq<Seq<char>>
    decreases s.len(),
{
    if s.len() == 0 {
        seq![Seq::<char>::empty()]
    } else {
        let r = alnum_tokens(s.drop_last());
        if !is_ascii_alnum(s.last()) {
            r.push(Seq::<char>::empty())
        } else {
            r.update(r.len() - 1, r.last().push(s.last()))
        }
    }
}

proof fn lemma_tokens_nonempty(s: Seq<char>)
    ensures
        alnum_tokens(s).len() >= 1,
    decreases s.len(),
{
    if s.len() > 0 {
        lemma_tokens_nonempty(s.drop_last());
    }
}

/// A token is the keyword, or the keyword followed by digits ("tun0").
pub open spec fn keyword_match(tok: Seq<char>, kw: Seq<char>) -> bool {
    tok == kw || (tok.len() > kw.len() && tok.take(kw.len() as int) == kw && all_ascii_digits(
        tok.skip(kw.len() as int),
    ))
}

/// A token that names a VPN or tunnel: one holding "warp" anywhere, or
/// one of the tunnel keywords with an optional number.
pub open spec fn tunnel_token(tok: Seq<char>) -> bool {
    ||| has_substr(tok, "warp"@)
    ||| keyword_match(tok, "warp"@)
    ||| keyword_match(tok, "wireguard"@)
    ||| keyword_match(tok, "wg"@)
    ||| keyword_match(tok, "nordlynx"@)
    ||| keyword_match(tok, "tailscale"@)
    ||| keyword_match(tok, "zerotier"@)
    ||| keyword_match(tok, "openvpn"@)
    ||| keyword_match(tok, "tap"@)
    ||| keyword_match(tok, "tun"@)
    ||| keyword_match(tok, "utun"@)
    ||| keyword_match(tok, "tunnel"@)
    ||| keyword_match(tok, "vpn"@)
    ||| keyword_match(tok, "ppp"@)
    ||| keyword_match(tok, "wgcf"@)
}

/// The text an adapter is judged by: its lower-cased name and description
/// joined by a space.
pub open spec fn adapter_text(name: Seq<char>, desc: Seq<char>) -> Seq<char> {
    lowercase(name) + seq![' '] + lowercase(desc)
}

/// Whether an adapter looks like a VPN/tunnel: some token of its text names
/// one ("Fortinet" does not trip on "tun", "tun0" does).
pub open spec fn is_tunnel_adapter(name: Seq<char>, desc: Seq<char>) -> bool {
    let toks = alnum_tokens(adapter_text(name, desc));
    exists|i: int| 0 <= i < toks.len() && tunnel_token(#[trigger] toks[i])
}

/// The views of a vector of character vectors.
pub open spec fn token_views(v: Seq<Vec<char>>) -> Seq<Seq<char>> {
    Seq::new(v.len(), |i: int| v[i]@)
}

fn ascii_alnum(c: char) -> (b: bool)
    ensures
        b == is_ascii_alnum(c),
{
    ('0' <= c && c <= '9') || ('a' <= c && c <= 'z') || ('A' <= c && c <= 'Z')
}

fn split_alnum(s: &Vec<char>) -> (r: Vec<Vec<char>>)
    ensures
        token_views(r@) == alnum_tokens(s@),
{
    let mut out: Vec<Vec<char>> = Vec::new();
    let mut cur: Vec<char> = Vec::new();
    let mut i: usize = 0;
    assert(token_views(out@).push(cur@) =~= alnum_tokens(s@.take(0)));
    while i < s.len()
        invariant
            i <= s@.len(),
            token_views(out@).push(cur@) == alnum_tokens(s@.take(i as int)),
        decreases s@.len() - i,
    {
        let c = s[i];
        let ghost before = alnum_tokens(s@.take(i as int));
        assert(s@.take(i + 1).drop_last() =~= s@.take(i as int));
        assert(s@.take(i + 1).last() == c);
        if !ascii_alnum(c) {
            out.push(cur);
            cur = Vec::new();
            assert(token_views(out@).push(cur@) =~= before.push(Seq::<char>::empty()));
        } else {
            cur.push(c);
            assert(token_views(out@).push(cur@) =~= before.update(
                before.len() - 1,
                before.last().push(c),
            ));
        }
        i += 1;
    }
    assert(s@.take(i as int) =~= s@);
    out.push(cur);
    assert(token_views(out@) =~= alnum_tokens(s@));
    out
}

fn chars_match_at(tok: &Vec<char>, kw: &Vec<char>) -> (b: bool)
    requires
        kw@.len() <= tok@.len(),
    ensures
        b == (tok@.take(kw@.len() as int) == kw@),
{
    let mut i: usize = 0;
    while i < kw.len()
        invariant
            kw@.len() <= tok@.len(),
            i <= kw@.len(),
            forall|k: int| 0 <= k < i ==> tok@[k] == kw@[k],
        decreases kw@.len() - i,
    {
        if tok[i] != kw[i] {
            assert(tok@.take(kw@.len() as int)[i as int] != kw@[i as int]);
            return false;
        }
        i += 1;
    }
    assert(tok@.take(kw@.len() as int) =~= kw@);
    true
}

fn keyword_match_exec(tok: &Vec<char>, kw: &str) -> (b: bool)
    ensures
        b == keyword_match(tok@, kw@),
{
    let k = chars_of(kw);
    if tok.len() < k.len() {
        assert(tok@ != k@);
        return false;
    }
    if !chars_match_at(tok, &k) {
        assert(tok@ != k@) by {
            if tok@ == k@ {
                assert(tok@.take(k@.len() as int) =~= k@);
            }
        }
        return false;
    }
    if tok.len() == k.len() {
        assert(tok@ =~= k@);
        return true;
    }
    let mut i: usize = k.len();
    while i < tok.len()
        invariant
            k@.len() < tok@.len(),
            k@ == kw@,
            tok@.take(k@.len() as int) == k@,
            k@.len() <= i <= tok@.len(),
            forall|j: int| k@.len() <= j < i ==> '0' <= #[trigger] tok@[j] <= '9',
        decreases tok@.len() - i,
    {
        if !('0' <= tok[i] && tok[i] <= '9') {
            assert(!all_ascii_digits(tok@.skip(k@.len() as int))) by {
                assert(tok@.skip(k@.len() as int)[i - k@.len()] == tok@[i as int]);
            }
            assert(tok@ != k@);
            return false;
        }
        i += 1;
    }
    assert(all_ascii_digits(tok@.skip(k@.len() as int))) by {
        assert forall|j: int| 0 <= j < tok@.skip(k@.len() as int).len() implies '0'
            <= #[trigger] tok@.skip(k@.len() as int)[j] <= '9' by {
            assert(tok@.skip(k@.len() as int)[j] == tok@[j + k@.len()]);
        }
    }
    true
}

fn contains_warp(tok: &Vec<char>) -> (b: bool)
    ensures
        b == has_substr(tok@, "warp"@),
{
    let w = chars_of("warp");
    crate::text::contains_chars(tok, &w)
}

fn tunnel_token_exec(tok: &Vec<char>) -> (b: bool)
    ensures
        b == tunnel_token(tok@),
{
    contains_warp(tok) || keyword_match_exec(tok, "warp") || keyword_match_exec(tok, "wireguard")
        || keyword_match_exec(tok, "wg") || keyword_match_exec(tok, "nordlynx") || keyword_match_exec(
        tok,
        "tailscale",
    ) || keyword_match_exec(tok, "zerotier") || keyword_match_exec(tok, "openvpn")
        || keyword_match_exec(tok, "tap") || keyword_match_exec(tok, "tun") || keyword_match_exec(
        tok,
        "utun",
    ) || keyword_match_exec(tok, "tunnel") || keyword_match_exec(tok, "vpn") || keyword_match_exec(
        tok,
        "ppp",
    ) || keyword_match_exec(tok, "wgcf")
}

/// The tunnel keywords: VPN and tunnel adapter names.
pub open spec fn tunnel_keywords() -> Seq<Seq<char>> {
    seq!["warp"@, "wireguard"@, "wg"@, "nordlynx"@, "tailscale"@, "zerotier"@, "openvpn"@, "tap"@, "tun"@, "utun"@, "tunnel"@, "vpn"@, "ppp"@, "wgcf"@]
}

proof fn lemma_keyword_with_digits(tok: Seq<char>, kw: Seq<char>, digits: Seq<char>)
    requires
        tok == kw + digits,
        all_ascii_digits(digits),
    ensures
        keyword_match(tok, kw),
{
    if digits.len() == 0 {
        assert(tok =~= kw);
    } else {
        assert(tok.take(kw.len() as int) =~= kw);
        assert(tok.skip(kw.len() as int) =~= digits);
    }
}

/// An adapter is a tunnel when its lower-cased name and description hold,
/// as a whole token, one of the tunnel keywords, alone or followed by
/// digits ("tun", "tun0", "tailscale0", "openvpn", "wg0" ...).
pub proof fn law_tunnel_keywords_flag(name: Seq<char>, desc: Seq<char>, i: int, k: int, digits: Seq<char>)
    requires
        0 <= k < tunnel_keywords().len(),
        0 <= i < alnum_tokens(adapter_text(name, desc)).len(),
        alnum_tokens(adapter_text(name, desc))[i] == tunnel_keywords()[k] + digits,
        all_ascii_digits(digits),
    ensures
        is_tunnel_adapter(name, desc),
{
    let tok = alnum_tokens(adapter_text(name, desc))[i];
    assert(tunnel_keywords().len() == 14);
    if k == 0 {
        lemma_keyword_with_digits(tok, "warp"@, digits);
    } else if k == 1 {
        lemma_keyword_with_digits(tok, "wireguard"@, digits);
    } else if k == 2 {
        lemma_keyword_with_digits(tok, "wg"@, digits);
    } else if k == 3 {
        lemma_keyword_with_digits(tok, "nordlynx"@, digits);
    } else if k == 4 {
        lemma_keyword_with_digits(tok, "tailscale"@, digits);
    } else if k == 5 {
        lemma_keyword_with_digits(tok, "zerotier"@, digits);
    } else if k == 6 {
        lemma_keyword_with_digits(tok, "openvpn"@, digits);
    } else if k == 7 {
        lemma_keyword_with_digits(tok, "tap"@, digits);
    } else if k == 8 {
        lemma_keyword_with_digits(tok, "tun"@, digits);
    } else if k == 9 {
        lemma_keyword_with_digits(tok, "utun"@, digits);
    } else if k == 10 {
        lemma_keyword_with_digits(tok, "tunnel"@, digits);
    } else if k == 11 {
        lemma_keyword_with_digits(tok, "vpn"@, digits);
    } else if k == 12 {
        lemma_keyword_with_digits(tok, "ppp"@, digits);
    } else if k == 13 {
        lemma_keyword_with_digits(tok, "wgcf"@, digits);
    }
    assert(tunnel_token(tok));
}

/// Token-based VPN/tunnel name match: WARP, WireGuard, OpenVPN TAP,
/// Tailscale and the like.
pub fn looks_like_tunnel(name: &str, desc: &str) -> (b: bool)
    ensures
        b == is_tunnel_adapter(name@, desc@),
{
    let n = to_lowercase(name);
    let d = to_lowercase(desc);
    let mut text = n.clone();
    text.push(' ');
    let text = text.concat(d.as_str());
    assert(text@ =~= adapter_text(name@, desc@));
    tunnel_in_text(text.as_str())
}

/// Whether some token of an already lower-cased adapter text names a VPN
/// or tunnel.
pub fn tunnel_in_text(text: &str) -> (b: bool)
    ensures
        b == (exists|i: int|
            0 <= i < alnum_tokens(text@).len() && tunnel_token(#[trigger] alnum_tokens(text@)[i])),
{
    let tv0 = chars_of(text);
    let toks = split_alnum(&tv0);
    let ghost tv = token_views(toks@);
    let mut i: usize = 0;
    while i < toks.len()
        invariant
            i <= toks@.len(),
            tv == token_views(toks@),
            tv == alnum_tokens(text@),
            forall|j: int| 0 <= j < i ==> !tunnel_token(#[trigger] tv[j]),
        decreases toks@.len() - i,
    {
        assert(tv[i as int] == toks@[i as int]@);
        if tunnel_token_exec(&toks[i]) {
            return true;
        }
        i += 1;
    }
    false
}

// ---------------------------------------------------------------------------
// Addresses of capture devices
// ---------------------------------------------------------------------------

/// Evidence of a real network: an IPv4 address that is not loopback
/// (127.0.0.0/8), not link-local (169.254.0.0/16) and not unspecified.
pub open spec fn is_usable_ipv4(a: IpAddr) -> bool {
    match a {
        IpAddr::V4(v) => v / 0x1000000 != 127 && v / 0x10000 != 0xa9fe && v != 0,
        IpAddr::V6(_) => false,
    }
}

pub fn usable_ipv4(addr: &IpAddr) -> (b: bool)
    ensures
        b == is_usable_ipv4(*addr),
{
    match addr {
        IpAddr::V4(v) => *v / 0x1000000 != 127 && *v / 0x10000 != 0xa9fe && *v != 0,
        IpAddr::V6(_) => false,
    }
}

/// The first usable IPv4 address of a list.
pub open spec fn first_usable(addrs: Seq<IpAddr>) -> Option<IpAddr>
    decreases addrs.len(),
{
    if addrs.len() == 0 {
        None
    } else if is_usable_ipv4(addrs[0]) {
        Some(addrs[0])
    } else {
        first_usable(addrs.drop_first())
    }
}

pub fn first_ipv4(addresses: &Vec<IpAddr>) -> (r: Option<IpAddr>)
    ensures
        r == first_usable(addresses@),
{
    let mut i: usize = 0;
    assert(addresses@.skip(0) =~= addresses@);
    while i < addresses.len()
        invariant
            i <= addresses@.len(),
            first_usable(addresses@) == first_usable(addresses@.skip(i as int)),
        decreases addresses@.len() - i,
    {
        assert(addresses@.skip(i as int).drop_first() =~= addresses@.skip(i + 1));
        assert(addresses@.skip(i as int)[0] == addresses@[i as int]);
        if usable_ipv4(&addresses[i]) {
            return Some(addresses[i]);
        }
        i += 1;
    }
    None
}

/// Dotted-quad text of an IPv4 address.
pub open spec fn dotted_quad(v: u32) -> Seq<char> {
    nat_text((v / 0x1000000) as nat) + seq!['.'] + nat_text(((v / 0x10000) % 0x100) as nat)
        + seq!['.'] + nat_text(((v / 0x100) % 0x100) as nat) + seq!['.'] + nat_text(
        (v % 0x100) as nat,
    )
}

pub fn dotted_quad_text(v: u32) -> (s: String)
    ensures
        s@ == dotted_quad(v),
{
    let mut s = String::new();
    push_decimal(&mut s, (v / 0x1000000) as u64);
    s.push('.');
    push_decimal(&mut s, ((v / 0x10000) % 0x100) as u64);
    s.push('.');
    push_decimal(&mut s, ((v / 0x100) % 0x100) as u64);
    s.push('.');
    push_decimal(&mut s, (v % 0x100) as u64);
    assert(s@ =~= dotted_quad(v));
    s
}

// ---------------------------------------------------------------------------
// Capture devices
// ---------------------------------------------------------------------------

/// What the device choice reads of a capture device.
#[derive(Clone, Debug)]
pub struct DeviceSummary {
    /// The raw capture name.
    pub name: String,
    /// The description, where the system gives one.
    pub desc: Option<String>,
    pub addresses: Vec<IpAddr>,
}

pub struct DeviceView {
    pub name: Seq<char>,
    pub desc: Option<Seq<char>>,
    pub addresses: Seq<IpAddr>,
}

impl View for DeviceSummary {
    type V = DeviceView;

    open spec fn view(&self) -> DeviceView {
        DeviceView {
            name: self.name@,
            desc: match self.desc {
                Some(d) => Some(d@),
                None => None,
            },
            addresses: self.addresses@,
        }
    }
}

pub open spec fn devices_view(v: Seq<DeviceSummary>) -> Seq<DeviceView> {
    Seq::new(v.len(), |i: int| v[i]@)
}

pub open spec fn desc_text(d: DeviceView) -> Seq<char> {
    match d.desc {
        Some(t) => t,
        None => Seq::empty(),
    }
}

/// A device whose name and description look like a VPN/tunnel adapter.
pub open spec fn is_tunnel(d: DeviceView) -> bool {
    is_tunnel_adapter(d.name, desc_text(d))
}

/// How a device is shown: "description (name)", or the bare name when it
/// has no description.
pub open spec fn device_label_text(d: DeviceView) -> Seq<char> {
    match d.desc {
        Some(t) => if t.len() > 0 {
            t + " ("@ + d.name + ")"@
        } else {
            d.name
        },
        None => d.name,
    }
}

pub fn is_tunnel_device(dev: &DeviceSummary) -> (b: bool)
    ensures
        b == is_tunnel(dev@),
{
    match &dev.desc {
        Some(d) => looks_like_tunnel(dev.name.as_str(), d.as_str()),
        None => {
            proof {
                reveal_strlit("");
            }
            assert(""@ =~= Seq::<char>::empty());
            looks_like_tunnel(dev.name.as_str(), "")
        },
    }
}

pub fn device_label(dev: &DeviceSummary) -> (s: String)
    ensures
        s@ == device_label_text(dev@),
{
    match &dev.desc {
        Some(d) => if !d.as_str().is_empty() {
            let mut s = d.clone();
            s.append(" (");
            s.append(dev.name.as_str());
            s.append(")");
            s
        } else {
            dev.name.clone()
        },
        None => dev.name.clone(),
    }
}

/// Which capture device to open.
#[derive(Clone, Copy, Debug, PartialEq, Eq, Structural)]
pub enum DeviceChoice {
    /// The device at this index of the list.
    Listed(usize),
    /// The system's default capture device.
    SystemDefault,
    /// The device asked for by name is not in the list.
    NotFound,
}

/// The first device from `i` on with the given name.
pub open spec fn first_named(ds: Seq<DeviceView>, name: Seq<char>, i: int) -> Option<int>
    decreases ds.len() - i,
{
    if i < 0 || i >= ds.len() {
        None
    } else if ds[i].name == name {
        Some(i)
    } else {
        first_named(ds, name, i + 1)
    }
}

/// The first device from `i` on that holds the address.
pub open spec fn first_holding(ds: Seq<DeviceView>, ip: IpAddr, i: int) -> Option<int>
    decreases ds.len() - i,
{
    if i < 0 || i >= ds.len() {
        None
    } else if ds[i].addresses.contains(ip) {
        Some(i)
    } else {
        first_holding(ds, ip, i + 1)
    }
}

/// The first device from `i` on that is no tunnel and has a usable IPv4
/// address.
pub open spec fn first_physical(ds: Seq<DeviceView>, i: int) -> Option<int>
    decreases ds.len() - i,
{
    if i < 0 || i >= ds.len() {
        None
    } else if !is_tunnel(ds[i]) && first_usable(ds[i].addresses) is Some {
        Some(i)
    } else {
        first_physical(ds, i + 1)
    }
}

/// The device to capture on: the one named by the user when a name is
/// given; else the one owning the primary outbound address, unless it is
/// a tunnel, in which case the first physical adapter with a real IPv4
/// address; else the system default.
pub open spec fn device_choice(
    ds: Seq<DeviceView>,
    preferred: Option<Seq<char>>,
    primary: Option<IpAddr>,
) -> DeviceChoice {
    match preferred {
        Some(p) if p.len() > 0 => match first_named(ds, p, 0) {
            Some(i) => DeviceChoice::Listed(i as usize),
            None => DeviceChoice::NotFound,
        },
        _ => match primary {
            Some(ip) => match first_holding(ds, ip, 0) {
                Some(i) => if !is_tunnel(ds[i]) {
                    DeviceChoice::Listed(i as usize)
                } else {
                    match first_physical(ds, 0) {
                        Some(j) => DeviceChoice::Listed(j as usize),
                        None => DeviceChoice::SystemDefault,
                    }
                },
                None => DeviceChoice::SystemDefault,
            },
            None => DeviceChoice::SystemDefault,
        },
    }
}

fn same_text(a: &str, b: &str) -> (r: bool)
    ensures
        r == (a@ == b@),
{
    let x = chars_of(a);
    let y = chars_of(b);
    if x.len() != y.len() {
        return false;
    }
    let mut i: usize = 0;
    while i < x.len()
        invariant
            x@ == a@,
            y@ == b@,
            x@.len() == y@.len(),
            i <= x@.len(),
            forall|k: int| 0 <= k < i ==> x@[k] == y@[k],
        decreases x@.len() - i,
    {
        if x[i] != y[i] {
            return false;
        }
        i += 1;
    }
    assert(x@ =~= y@);
    true
}

fn holds_address(addrs: &Vec<IpAddr>, ip: IpAddr) -> (b: bool)
    ensures
        b == addrs@.contains(ip),
{
    let mut i: usize = 0;
    while i < addrs.len()
        invariant
            i <= addrs@.len(),
            forall|k: int| 0 <= k < i ==> addrs@[k] != ip,
        decreases addrs@.len() - i,
    {
        if addrs[i] == ip {
            return true;
        }
        i += 1;
    }
    false
}

/// Picks the capture device: see [`device_choice`].
pub fn choose_device(
    devices: &Vec<DeviceSummary>,
    preferred: Option<&str>,
    primary_ip: Option<IpAddr>,
) -> (r: DeviceChoice)
    ensures
        r == device_choice(
            devices_view(devices@),
            match preferred {
                Some(p) => Some(p@),
                None => None,
            },
            primary_ip,
        ),
        r matches DeviceChoice::Listed(i) ==> i < devices@.len(),
{
    let ghost ds = devices_view(devices@);
    let n = devices.len();
    match preferred {
        Some(p) => {
            if !p.is_empty() {
                let mut i: usize = 0;
                while i < n
                    invariant
                        n == devices@.len(),
                        ds == devices_view(devices@),
                        preferred == Some(p),
                        p@.len() > 0,
                        i <= n,
                        first_named(ds, p@, 0) == first_named(ds, p@, i as int),
                    decreases n - i,
                {
                    assert(ds[i as int] == devices@[i as int]@);
                    if same_text(devices[i].name.as_str(), p) {
                        return DeviceChoice::Listed(i);
                    }
                    i += 1;
                }
                return DeviceChoice::NotFound;
            }
        },
        None => {},
    }
    let ip = match primary_ip {
        Some(ip) => ip,
        None => return DeviceChoice::SystemDefault,
    };
    let mut i: usize = 0;
    while i < n
        invariant
            n == devices@.len(),
            ds == devices_view(devices@),
            match preferred {
                Some(p) => p@.len() == 0,
                None => true,
            },
            primary_ip == Some(ip),
            i <= n,
            first_holding(ds, ip, 0) == first_holding(ds, ip, i as int),
        decreases n - i,
    {
        assert(ds[i as int] == devices@[i as int]@);
        if holds_address(&devices[i].addresses, ip) {
            if !is_tunnel_device(&devices[i]) {
                return DeviceChoice::Listed(i);
            }
            let mut j: usize = 0;
            while j < n
                invariant
                    n == devices@.len(),
                    ds == devices_view(devices@),
                    match preferred {
                        Some(p) => p@.len() == 0,
                        None => true,
                    },
                    primary_ip == Some(ip),
                    first_holding(ds, ip, 0) == Some(i as int),
                    i < n,
                    is_tunnel(ds[i as int]),
                    j <= n,
                    first_physical(ds, 0) == first_physical(ds, j as int),
                decreases n - j,
            {
                assert(ds[j as int] == devices@[j as int]@);
                if !is_tunnel_device(&devices[j]) && first_ipv4(&devices[j].addresses).is_some() {
                    return DeviceChoice::Listed(j);
                }
                j += 1;
            }
            return DeviceChoice::SystemDefault;
        }
        i += 1;
    }
    DeviceChoice::SystemDefault
}

/// The names of the devices joined by ", ".
pub open spec fn joined_names(ds: Seq<DeviceView>) -> Seq<char>
    decreases ds.len(),
{
    if ds.len() == 0 {
        Seq::empty()
    } else if ds.len() == 1 {
        ds[0].name
    } else {
        joined_names(ds.drop_last()) + ", "@ + ds.last().name
    }
}

/// The message for a device asked for by name that is not in the list.
pub open spec fn not_found_text(name: Seq<char>, ds: Seq<DeviceView>) -> Seq<char> {
    "selected interface not found: "@ + name + " (available: "@ + joined_names(ds) + ")"@
}

pub fn not_found_message(name: &str, devices: &Vec<DeviceSummary>) -> (s: String)
    ensures
        s@ == not_found_text(name@, devices_view(devices@)),
{
    let ghost ds = devices_view(devices@);
    let mut names = String::new();
    let mut i: usize = 0;
    assert(ds.take(0) =~= Seq::<DeviceView>::empty());
    while i < devices.len()
        invariant
            i <= devices@.len(),
            ds == devices_view(devices@),
            names@ == joined_names(ds.take(i as int)),
        decreases devices@.len() - i,
    {
        let ghost t = ds.take(i + 1);
        assert(t.drop_last() =~= ds.take(i as int));
        assert(t.last() == devices@[i as int]@);
        if i > 0 {
            names.append(", ");
        } else {
            assert(names@ =~= Seq::<char>::empty());
        }
        names.append(devices[i].name.as_str());
        i += 1;
        assert(names@ =~= joined_names(ds.take(i as int)));
    }
    assert(ds.take(i as int) =~= ds);
    let mut s = "selected interface not found: ".to_string();
    s.append(name);
    s.append(" (available: ");
    s.append(names.as_str());
    s.append(")");
    s
}

// ---------------------------------------------------------------------------
// Errors and device listings
// ---------------------------------------------------------------------------

/// Why capture could not start.
#[derive(Clone, Debug)]
pub enum SnifferError {
    AlreadyRunning,
    NoDevice,
    DeviceLookup(String),
    CaptureOpen(String),
    Filter(String),
}

pub open spec fn sniffer_error_text(e: SnifferError) -> Seq<char> {
    match e {
        SnifferError::AlreadyRunning => "Capture already running"@,
        SnifferError::NoDevice => "No network device found"@,
        SnifferError::DeviceLookup(m) => "Failed to lookup device: "@ + m@,
        SnifferError::CaptureOpen(m) => "Failed to open capture: "@ + m@,
        SnifferError::Filter(m) => "Failed to set filter: "@ + m@,
    }
}

impl SnifferError {
    /// The error's message.
    pub fn message(&self) -> (s: String)
        ensures
            s@ == sniffer_error_text(*self),
    {
        match self {
            SnifferError::AlreadyRunning => "Capture already running".to_string(),
            SnifferError::NoDevice => "No network device found".to_string(),
            SnifferError::DeviceLookup(m) => "Failed to lookup device: ".to_string().concat(
                m.as_str(),
            ),
            SnifferError::CaptureOpen(m) => "Failed to open capture: ".to_string().concat(
                m.as_str(),
            ),
            SnifferError::Filter(m) => "Failed to set filter: ".to_string().concat(m.as_str()),
        }
    }
}

/// A capture device as the interface picker shows it.
#[derive(Clone, Debug)]
pub struct CaptureDeviceInfo {
    /// The raw capture name, the stable identifier to start capture with.
    pub name: String,
    /// Human-readable label.
    pub label: String,
    /// Looks like a VPN/tunnel adapter (a bad choice for capture).
    pub is_tunnel: bool,
    /// The first usable IPv4 address, empty when there is none.
    pub ipv4: String,
}

/// The picker text of a device's first usable IPv4 address.
pub open spec fn first_ipv4_text(d: DeviceView) -> Seq<char> {
    match first_usable(d.addresses) {
        Some(IpAddr::V4(v)) => dotted_quad(v),
        _ => Seq::empty(),
    }
}

proof fn lemma_first_usable_v4(addrs: Seq<IpAddr>)
    ensures
        !(first_usable(addrs) matches Some(IpAddr::V6(_))),
    decreases addrs.len(),
{
    if addrs.len() > 0 {
        lemma_first_usable_v4(addrs.drop_first());
    }
}

impl CaptureDeviceInfo {
    pub fn from_device(d: &DeviceSummary) -> (r: CaptureDeviceInfo)
        ensures
            r.name@ == d@.name,
            r.label@ == device_label_text(d@),
            r.is_tunnel == is_tunnel(d@),
            r.ipv4@ == first_ipv4_text(d@),
    {
        proof {
            lemma_first_usable_v4(d.addresses@);
        }
        let ipv4 = match first_ipv4(&d.addresses) {
            Some(IpAddr::V4(v)) => dotted_quad_text(v),
            _ => String::new(),
        };
        CaptureDeviceInfo {
            name: d.name.clone(),
            label: device_label(d),
            is_tunnel: is_tunnel_device(d),
            ipv4,
        }
    }
}

// ---------------------------------------------------------------------------
// Saved channel mappings
// ---------------------------------------------------------------------------

/// The saved form of a mapping: the id as decimal text and the channel's
/// label; only channels worth persisting (not Unknown, not Language).
pub open spec fn saved_entry(id: i64, c: ChatChannel) -> Option<(Seq<char>, Seq<char>)> {
    if is_persistable(c) {
        Some((i64_text(id), channel_label(c)))
    } else {
        None
    }
}

/// A saved entry read back: an id that parses as an `i64` and a known
/// persistable label.
pub open spec fn restored_entry(id: Seq<char>, label: Seq<char>) -> Option<(i64, ChatChannel)> {
    match (crate::text::parse_i64_bytes(vstd::utf8::encode_utf8(id)), channel_for_label(label)) {
        (Some(i), Some(c)) => Some((i, c)),
        _ => None,
    }
}

pub fn save_entry(id: i64, channel: ChatChannel) -> (r: Option<(String, String)>)
    ensures
        match r {
            Some((a, b)) => saved_entry(id, channel) == Some((a@, b@)),
            None => saved_entry(id, channel) is None,
        },
{
    if channel == ChatChannel::Unknown || channel == ChatChannel::Language {
        return None;
    }
    Some((i64_to_text(id), channel.label().to_string()))
}

pub fn restore_entry(id: &str, label: &str) -> (r: Option<(i64, ChatChannel)>)
    ensures
        r == restored_entry(id@, label@),
{
    let i = parse_i64(id.as_bytes());
    let c = ChatChannel::from_label(label);
    match (i, c) {
        (Some(i), Some(c)) => Some((i, c)),
        _ => None,
    }
}

// ---------------------------------------------------------------------------
// Captured frames
// ---------------------------------------------------------------------------

/// What became of a captured frame.
#[derive(Clone, Debug)]
pub enum FrameOutcome {
    /// Not an IP/UDP frame.
    NotUdp,
    /// Neither endpoint lies in the host filter's ranges.
    Filtered,
    /// Handed to the decoder, which gave this.
    Decoded(Option<ChatMessage>),
    /// The decoder refused one of its fragments.
    Refused(FragmentError),
}

/// The kinds of frame outcomes, over the decoder's outcomes.
pub enum FrameStep {
    NotUdp,
    Filtered,
    Decoded(Outcome),
}

pub open spec fn frame_step_of(r: FrameOutcome) -> FrameStep {
    match r {
        FrameOutcome::NotUdp => FrameStep::NotUdp,
        FrameOutcome::Filtered => FrameStep::Filtered,
        FrameOutcome::Decoded(m) => FrameStep::Decoded(
            match chat_of(m) {
                Some(c) => Outcome::Chat(c),
                None => Outcome::Quiet,
            },
        ),
        FrameOutcome::Refused(e) => FrameStep::Decoded(Outcome::Refused(e)),
    }
}

/// A captured frame: its UDP payload is decoded when the frame is UDP and,
/// with a host filter that has ranges, either endpoint lies in one of them.
/// A filter without ranges filters nothing, as having none does.
pub open spec fn frame_step(s: DecoderView, filter: Option<Seq<CidrRange>>, frame: Seq<u8>) -> (
    DecoderView,
    FrameStep,
) {
    match udp_in_frame(frame) {
        None => (s, FrameStep::NotUdp),
        Some((src, dst, u, e)) => {
            let passes = match filter {
                Some(rs) => rs.len() == 0 || any_holds(rs, src) || any_holds(rs, dst),
                None => true,
            };
            if !passes {
                (s, FrameStep::Filtered)
            } else {
                let (s1, o) = decode_step(s, frame.subrange(u + 8, e));
                (s1, FrameStep::Decoded(o))
            }
        },
    }
}

/// Handles one captured frame.
pub fn process_frame(
    decoder: &mut PhotonDecoder,
    filter: Option<&HostFilter>,
    frame: &[u8],
) -> (r: FrameOutcome)
    requires
        old(decoder).wf(),
    ensures
        final(decoder).wf(),
        (final(decoder)@, frame_step_of(r)) == frame_step(
            old(decoder)@,
            match filter {
                Some(f) => Some(f@),
                None => None,
            },
            frame@,
        ),
        r matches FrameOutcome::Decoded(m) ==> fresh_if_some(m),
{
    let (src, dst, _sp, _dp, payload) = match extract_udp_packet(frame) {
        Some(x) => x,
        None => return FrameOutcome::NotUdp,
    };
    match filter {
        Some(f) => {
            if !f.is_empty() && !f.contains(src) && !f.contains(dst) {
                return FrameOutcome::Filtered;
            }
        },
        None => {},
    }
    match decoder.try_decode(payload) {
        Ok(m) => FrameOutcome::Decoded(m),
        Err(e) => FrameOutcome::Refused(e),
    }
}

// ---------------------------------------------------------------------------
// Diagnostic capture
// ---------------------------------------------------------------------------

/// Result of a diagnostic capture: how many frames the adapter saw, how
/// many were UDP, how many touched Albion's ports, and the busiest UDP
/// ports.
#[derive(Clone, Debug)]
pub struct DiagReport {
    pub device: String,
    pub duration_secs: u64,
    pub total_packets: u64,
    pub udp_packets: u64,
    pub albion_packets: u64,
    /// Up to five `(port, packets)` pairs, busiest first.
    pub top_udp_ports: Vec<(u16, u64)>,
}

/// Albion's game ports.
pub open spec fn is_albion_port(p: u16) -> bool {
    p == 5055 || p == 5056 || p == 4535
}

/// The counts gathered so far.
pub struct DiagView {
    pub total: u64,
    pub udp: u64,
    pub albion: u64,
    /// `(port, packets)` for every port seen, in the order first seen.
    pub ports: Seq<(u16, u64)>,
}

/// Counts frames during a diagnostic capture.  Port counts are kept in a
/// vector in the order the ports were first seen, so that the report's
/// order among equally busy ports is fixed; walking a hash map would leave
/// it to the map's iteration order.
#[derive(Clone, Debug)]
pub struct DiagCounter {
    total: u64,
    udp: u64,
    albion: u64,
    ports: Vec<(u16, u64)>,
}

impl View for DiagCounter {
    type V = DiagView;

    closed spec fn view(&self) -> DiagView {
        DiagView { total: self.total, udp: self.udp, albion: self.albion, ports: self.ports@ }
    }
}

/// Where a port stands in the counts.
pub open spec fn port_index(ps: Seq<(u16, u64)>, p: u16) -> Option<int>
    decreases ps.len(),
{
    if ps.len() == 0 {
        None
    } else if ps.last().0 == p {
        Some(ps.len() - 1)
    } else {
        port_index(ps.drop_last(), p)
    }
}

/// The counts with one more packet on port `p`.
pub open spec fn bump_port(ps: Seq<(u16, u64)>, p: u16) -> Seq<(u16, u64)> {
    match port_index(ps, p) {
        Some(i) => ps.update(i, (p, (ps[i].1 + 1) as u64)),
        None => ps.push((p, 1u64)),
    }
}

/// The counts after one more frame: for a UDP frame (see
/// `extract_udp_packet`) the lower of its two ports is counted.
pub open spec fn diag_step(d: DiagView, frame: Seq<u8>) -> DiagView {
    match udp_in_frame(frame) {
        None => DiagView { total: (d.total + 1) as u64, ..d },
        Some((_, _, u, _)) => {
            let sp = be16(frame, u);
            let dp = be16(frame, u + 2);
            DiagView {
                total: (d.total + 1) as u64,
                udp: (d.udp + 1) as u64,
                albion: if is_albion_port(sp) || is_albion_port(dp) {
                    (d.albion + 1) as u64
                } else {
                    d.albion
                },
                ports: bump_port(d.ports, if sp < dp { sp } else { dp }),
            }
        },
    }
}

/// `x` placed into `s` (sorted busiest first) after every entry at least
/// as busy: the step of a stable sort.
pub open spec fn insert_by_count(s: Seq<(u16, u64)>, x: (u16, u64)) -> Seq<(u16, u64)>
    decreases s.len(),
{
    if s.len() == 0 {
        seq![x]
    } else if s[0].1 < x.1 {
        seq![x] + s
    } else {
        seq![s[0]] + insert_by_count(s.drop_first(), x)
    }
}

/// The counts sorted busiest first; equally busy ports keep the order in
/// which they were first seen.
pub open spec fn by_count(s: Seq<(u16, u64)>) -> Seq<(u16, u64)>
    decreases s.len(),
{
    if s.len() == 0 {
        Seq::empty()
    } else {
        insert_by_count(by_count(s.drop_last()), s.last())
    }
}

/// The five busiest ports (fewer when fewer were seen).
pub open spec fn top_ports(s: Seq<(u16, u64)>) -> Seq<(u16, u64)> {
    let b = by_count(s);
    if b.len() <= 5 {
        b
    } else {
        b.take(5)
    }
}

proof fn lemma_insert_len(s: Seq<(u16, u64)>, x: (u16, u64))
    ensures
        insert_by_count(s, x).len() == s.len() + 1,
    decreases s.len(),
{
    if s.len() > 0 && s[0].1 >= x.1 {
        lemma_insert_len(s.drop_first(), x);
    }
}

proof fn lemma_by_count_len(s: Seq<(u16, u64)>)
    ensures
        by_count(s).len() == s.len(),
    decreases s.len(),
{
    if s.len() > 0 {
        lemma_by_count_len(s.drop_last());
        lemma_insert_len(by_count(s.drop_last()), s.last());
    }
}

/// Inserting is placing `x` before the first entry that is less busy.
proof fn lemma_insert_at(s: Seq<(u16, u64)>, x: (u16, u64), k: int)
    requires
        0 <= k <= s.len(),
        forall|j: int| 0 <= j < k ==> s[j].1 >= x.1,
        k < s.len() ==> s[k].1 < x.1,
    ensures
        insert_by_count(s, x) == s.insert(k, x),
    decreases s.len(),
{
    if s.len() == 0 {
        assert(s.insert(k, x) =~= seq![x]);
    } else if k == 0 {
        assert(s.insert(0, x) =~= seq![x] + s);
    } else {
        let t = s.drop_first();
        assert forall|j: int| 0 <= j < k - 1 implies t[j].1 >= x.1 by {
            assert(t[j] == s[j + 1]);
        }
        if k - 1 < t.len() {
            assert(t[k - 1] == s[k]);
        }
        lemma_insert_at(t, x, k - 1);
        assert(seq![s[0]] + t.insert(k - 1, x) =~= s.insert(k, x));
    }
}

impl DiagCounter {
    /// The counts are consistent: UDP frames are among all frames, Albion
    /// frames among UDP frames, each port's count is positive and at most
    /// the UDP count, and each port appears once.
    pub open spec fn wf(&self) -> bool {
        &&& self@.udp <= self@.total
        &&& self@.albion <= self@.udp
        &&& forall|i: int|
            0 <= i < self@.ports.len() ==> 1 <= (#[trigger] self@.ports[i]).1 <= self@.udp
        &&& forall|i: int, j: int|
            0 <= i < j < self@.ports.len() ==> self@.ports[i].0 != self@.ports[j].0
    }

    /// Nothing counted yet.
    pub fn new() -> (r: Self)
        ensures
            r.wf(),
            r@ == (DiagView { total: 0, udp: 0, albion: 0, ports: Seq::empty() }),
    {
        DiagCounter { total: 0, udp: 0, albion: 0, ports: Vec::new() }
    }

    /// Counts one captured frame.
    pub fn record(&mut self, frame: &[u8])
        requires
            old(self).wf(),
            old(self)@.total < u64::MAX,
        ensures
            final(self).wf(),
            final(self)@ == diag_step(old(self)@, frame@),
    {
        self.total = self.total + 1;
        let (_, _, sp, dp, _) = match extract_udp_packet(frame) {
            Some(x) => x,
            None => {
                assert(self@.ports == old(self)@.ports);
                return;
            },
        };
        self.udp = self.udp + 1;
        if sp == 5055 || sp == 5056 || sp == 4535 || dp == 5055 || dp == 5056 || dp == 4535 {
            self.albion = self.albion + 1;
        }
        let port = if sp < dp {
            sp
        } else {
            dp
        };
        let ghost ps = self.ports@;
        assert(ps == old(self)@.ports);
        match find_port(&self.ports, port) {
            Some(i) => {
                let c = self.ports[i].1;
                assert(c <= old(self)@.udp);
                self.ports.set(i, (port, c + 1));
                assert forall|a: int, b: int|
                    0 <= a < b < self@.ports.len() implies self@.ports[a].0 != self@.ports[b].0 by {
                    assert(ps[a].0 != ps[b].0);
                }
                assert(self@.ports =~= bump_port(ps, port));
            },
            None => {
                assert forall|k: int| 0 <= k < ps.len() implies ps[k].0 != port by {
                    lemma_port_index_none(ps, port, k);
                }
                self.ports.push((port, 1));
                assert(self@.ports =~= bump_port(ps, port));
            },
        }
    }

    /// The counts so far.
    pub fn counts(&self) -> (r: (u64, u64, u64))
        ensures
            r == (self@.total, self@.udp, self@.albion),
    {
        (self.total, self.udp, self.albion)
    }

    /// The report of the capture: the counts, and the five busiest ports,
    /// busiest first.
    pub fn report(&self, device: String, duration_secs: u64) -> (r: DiagReport)
        ensures
            r.device == device,
            r.duration_secs == duration_secs,
            r.total_packets == self@.total,
            r.udp_packets == self@.udp,
            r.albion_packets == self@.albion,
            r.top_udp_ports@ == top_ports(self@.ports),
    {
        let ghost ps = self.ports@;
        let mut sorted: Vec<(u16, u64)> = Vec::new();
        let mut i: usize = 0;
        assert(ps.take(0) =~= Seq::<(u16, u64)>::empty());
        while i < self.ports.len()
            invariant
                i <= ps.len(),
                ps == self.ports@,
                sorted@ == by_count(ps.take(i as int)),
            decreases ps.len() - i,
        {
            let x = self.ports[i];
            let mut k: usize = 0;
            while k < sorted.len() && sorted[k].1 >= x.1
                invariant
                    k <= sorted@.len(),
                    forall|j: int| 0 <= j < k ==> sorted@[j].1 >= x.1,
                decreases sorted@.len() - k,
            {
                k += 1;
            }
            proof {
                lemma_insert_at(sorted@, x, k as int);
                assert(ps.take(i + 1).drop_last() =~= ps.take(i as int));
                assert(ps.take(i + 1).last() == x);
            }
            sorted.insert(k, x);
            i += 1;
        }
        assert(ps.take(i as int) =~= ps);
        proof {
            lemma_by_count_len(ps);
        }
        let mut top: Vec<(u16, u64)> = Vec::new();
        let mut j: usize = 0;
        while j < sorted.len() && j < 5
            invariant
                j <= sorted@.len(),
                j <= 5,
                top@ == sorted@.take(j as int),
            decreases 5 - j,
        {
            top.push(sorted[j]);
            j += 1;
            assert(top@ =~= sorted@.take(j as int));
        }
        if sorted.len() <= 5 {
            assert(sorted@.take(j as int) =~= sorted@);
        }
        DiagReport {
            device,
            duration_secs,
            total_packets: self.total,
            udp_packets: self.udp,
            albion_packets: self.albion,
            top_udp_ports: top,
        }
    }
}

fn find_port(ports: &Vec<(u16, u64)>, port: u16) -> (r: Option<usize>)
    ensures
        match r {
            Some(i) => port_index(ports@, port) == Some(i as int) && i < ports@.len()
                && ports@[i as int].0 == port,
            None => port_index(ports@, port) is None,
        },
{
    let ghost ps = ports@;
    let mut i: usize = ports.len();
    assert(ps.take(i as int) =~= ps);
    while i > 0
        invariant
            i <= ps.len(),
            ps == ports@,
            port_index(ps, port) == port_index(ps.take(i as int), port),
        decreases i,
    {
        assert(ps.take(i as int).drop_last() =~= ps.take(i - 1));
        assert(ps.take(i as int).last() == ps[i - 1]);
        if ports[i - 1].0 == port {
            return Some(i - 1);
        }
        i -= 1;
    }
    None
}

proof fn lemma_port_index_none(ps: Seq<(u16, u64)>, p: u16, k: int)
    requires
        port_index(ps, p) is None,
        0 <= k < ps.len(),
    ensures
        ps[k].0 != p,
    decreases ps.len(),
{
    if k < ps.len() - 1 {
        assert(ps.drop_last()[k] == ps[k]);
        lemma_port_index_none(ps.drop_last(), p, k);
    }
}

// ---------------------------------------------------------------------------
// Laws
// ---------------------------------------------------------------------------

/// The bytes of an ASCII text.
pub open spec fn ascii_bytes(t: Seq<char>) -> Seq<u8> {
    Seq::new(t.len(), |i: int| t[i] as u8)
}

proof fn lemma_nat_text_decimal(n: nat)
    ensures
        nat_text(n).len() >= 1,
        vstd::utf8::is_ascii_chars(nat_text(n)),
        crate::text::all_digits(ascii_bytes(nat_text(n))),
        crate::text::decimal_value(ascii_bytes(nat_text(n))) == n,
    decreases n,
{
    let t = nat_text(n);
    if n < 10 {
        assert(t[0] == crate::text::digit_char(n));
        assert((48 + n) as char as u8 == 48 + n) by {
            assert(((48 + n) as char) as u32 == 48 + n);
        }
        let b = ascii_bytes(t);
        assert(b.drop_last() =~= Seq::<u8>::empty());
        assert(crate::text::decimal_value(b.drop_last()) == 0);
        assert(b.last() == 48 + n);
    } else {
        lemma_nat_text_decimal(n / 10);
        let front = nat_text(n / 10);
        let d = n % 10;
        assert(t == front.push(crate::text::digit_char(d)));
        assert(((48 + d) as char) as u32 == 48 + d);
        let b = ascii_bytes(t);
        assert(b.drop_last() =~= ascii_bytes(front));
        assert(b.last() == 48 + d);
        assert(n == (n / 10) * 10 + d) by (nonlinear_arith)
            requires
                d == n % 10,
        ;
        assert(crate::text::decimal_value(b) == crate::text::decimal_value(b.drop_last()) * 10 + (
        b.last() - 48));
        assert(crate::text::all_digits(b)) by {
            assert forall|i: int| 0 <= i < b.len() implies crate::text::is_digit_byte(
                #[trigger] b[i],
            ) by {
                if i < b.len() - 1 {
                    assert(b[i] == ascii_bytes(front)[i]);
                }
            }
        }
        assert(vstd::utf8::is_ascii_chars(t)) by {
            assert forall|i: int| 0 <= i < t.len() implies '\0' <= #[trigger] t[i] <= '\u{7f}' by {
                if i < t.len() - 1 {
                    assert(t[i] == front[i]);
                }
            }
        }
    }
}

proof fn lemma_i64_text_parses(n: i64)
    ensures
        crate::text::parse_i64_bytes(vstd::utf8::encode_utf8(i64_text(n))) == Some(n),
{
    let t = i64_text(n);
    if n < 0 {
        let m = (-n) as nat;
        lemma_nat_text_decimal(m);
        let digits = nat_text(m);
        assert(vstd::utf8::is_ascii_chars(t)) by {
            assert forall|i: int| 0 <= i < t.len() implies '\0' <= #[trigger] t[i] <= '\u{7f}' by {
                if i > 0 {
                    assert(t[i] == digits[i - 1]);
                }
            }
        }
        vstd::utf8::is_ascii_chars_encode_utf8(t);
        let b = vstd::utf8::encode_utf8(t);
        assert(b.drop_first() =~= ascii_bytes(digits)) by {
            assert forall|i: int| 0 <= i < b.drop_first().len() implies b.drop_first()[i]
                == ascii_bytes(digits)[i] by {
                assert(t[i + 1] == digits[i]);
            }
        }
        assert(b[0] == 45u8) by {
            assert(t[0] == '-');
        }
    } else {
        lemma_nat_text_decimal(n as nat);
        vstd::utf8::is_ascii_chars_encode_utf8(t);
        let b = vstd::utf8::encode_utf8(t);
        assert(b =~= ascii_bytes(t));
        assert(crate::text::is_digit_byte(b[0]));
    }
}

/// A channel mapping worth keeping survives being saved and read back.
pub proof fn law_saved_entry_restores(id: i64, c: ChatChannel)
    requires
        is_persistable(c),
    ensures
        saved_entry(id, c) matches Some((i, l)) && restored_entry(i, l) == Some((id, c)),
{
    lemma_i64_text_parses(id);
    crate::channel::lemma_label_roundtrip(c);
}

/// Counts in order, busiest first.
pub open spec fn busiest_first(s: Seq<(u16, u64)>) -> bool {
    forall|i: int, j: int| 0 <= i < j < s.len() ==> s[i].1 >= s[j].1
}

proof fn lemma_insert_sorted(s: Seq<(u16, u64)>, x: (u16, u64))
    requires
        busiest_first(s),
    ensures
        busiest_first(insert_by_count(s, x)),
        insert_by_count(s, x).len() == s.len() + 1,
        forall|y: (u16, u64)| #[trigger]
            insert_by_count(s, x).contains(y) <==> (s.contains(y) || y == x),
    decreases s.len(),
{
    lemma_insert_len(s, x);
    let r = insert_by_count(s, x);
    if s.len() == 0 {
        assert forall|y: (u16, u64)| #[trigger] r.contains(y) <==> (s.contains(y) || y == x) by {
            if r.contains(y) {
                assert(r[0] == y);
            }
            if y == x {
                assert(r[0] == x);
            }
        }
    } else if s[0].1 < x.1 {
        assert(r == seq![x] + s);
        assert forall|i: int, j: int| 0 <= i < j < r.len() implies r[i].1 >= r[j].1 by {
            if i > 0 {
                assert(r[i] == s[i - 1] && r[j] == s[j - 1]);
            } else {
                assert(r[j] == s[j - 1]);
                assert(s[0].1 >= s[j - 1].1 || j - 1 == 0);
            }
        }
        assert forall|y: (u16, u64)| #[trigger] r.contains(y) <==> (s.contains(y) || y == x) by {
            if r.contains(y) {
                let k = choose|k: int| 0 <= k < r.len() && r[k] == y;
                if k > 0 {
                    assert(s[k - 1] == y);
                }
            }
            if s.contains(y) {
                let k = choose|k: int| 0 <= k < s.len() && s[k] == y;
                assert(r[k + 1] == y);
            }
            if y == x {
                assert(r[0] == x);
            }
        }
    } else {
        let t = s.drop_first();
        assert(busiest_first(t)) by {
            assert forall|i: int, j: int| 0 <= i < j < t.len() implies t[i].1 >= t[j].1 by {
                assert(t[i] == s[i + 1] && t[j] == s[j + 1]);
            }
        }
        lemma_insert_sorted(t, x);
        let rt = insert_by_count(t, x);
        assert(r == seq![s[0]] + rt);
        assert forall|i: int, j: int| 0 <= i < j < r.len() implies r[i].1 >= r[j].1 by {
            if i > 0 {
                assert(r[i] == rt[i - 1] && r[j] == rt[j - 1]);
            } else {
                assert(r[j] == rt[j - 1]);
                assert(rt.contains(rt[j - 1]));
                if rt[j - 1] == x {
                } else {
                    let k = choose|k: int| 0 <= k < t.len() && t[k] == rt[j - 1];
                    assert(s[k + 1] == t[k]);
                }
            }
        }
        assert forall|y: (u16, u64)| #[trigger] r.contains(y) <==> (s.contains(y) || y == x) by {
            if r.contains(y) {
                let k = choose|k: int| 0 <= k < r.len() && r[k] == y;
                if k > 0 {
                    assert(rt[k - 1] == y);
                    assert(rt.contains(y));
                    if t.contains(y) {
                        let m = choose|m: int| 0 <= m < t.len() && t[m] == y;
                        assert(s[m + 1] == y);
                    }
                } else {
                    assert(s[0] == y);
                }
            }
            if s.contains(y) {
                let k = choose|k: int| 0 <= k < s.len() && s[k] == y;
                if k > 0 {
                    assert(t[k - 1] == y);
                    assert(t.contains(y));
                    assert(rt.contains(y));
                    let m = choose|m: int| 0 <= m < rt.len() && rt[m] == y;
                    assert(r[m + 1] == y);
                } else {
                    assert(r[0] == y);
                }
            }
            if y == x {
                assert(rt.contains(x));
                let m = choose|m: int| 0 <= m < rt.len() && rt[m] == x;
                assert(r[m + 1] == x);
            }
        }
    }
}

proof fn lemma_by_count_sorted(s: Seq<(u16, u64)>)
    ensures
        busiest_first(by_count(s)),
        by_count(s).len() == s.len(),
        forall|y: (u16, u64)| #[trigger] by_count(s).contains(y) <==> s.contains(y),
    decreases s.len(),
{
    if s.len() > 0 {
        lemma_by_count_sorted(s.drop_last());
        lemma_insert_sorted(by_count(s.drop_last()), s.last());
        assert forall|y: (u16, u64)| #[trigger] by_count(s).contains(y) <==> s.contains(y) by {
            if s.drop_last().contains(y) {
                let k = choose|k: int| 0 <= k < s.drop_last().len() && s.drop_last()[k] == y;
                assert(s[k] == y);
            }
            if s.contains(y) && y != s.last() {
                let k = choose|k: int| 0 <= k < s.len() && s[k] == y;
                assert(k < s.len() - 1);
                assert(s.drop_last()[k] == y);
            }
            if y == s.last() {
                assert(s[s.len() - 1] == y);
            }
        }
    }
}

/// The report's ports come busiest first, are ports that were counted,
/// and are five, or all of them when fewer were seen.
pub proof fn law_top_ports_busiest_first(ps: Seq<(u16, u64)>)
    ensures
        busiest_first(top_ports(ps)),
        top_ports(ps).len() == if ps.len() < 5 {
            ps.len()
        } else {
            5
        },
        forall|i: int| 0 <= i < top_ports(ps).len() ==> ps.contains(#[trigger] top_ports(ps)[i]),
{
    lemma_by_count_sorted(ps);
    let b = by_count(ps);
    assert forall|i: int| 0 <= i < top_ports(ps).len() implies ps.contains(
        #[trigger] top_ports(ps)[i],
    ) by {
        assert(top_ports(ps)[i] == b[i]);
        assert(b.contains(b[i]));
    }
    assert forall|i: int, j: int| 0 <= i < j < top_ports(ps).len() implies top_ports(ps)[i].1
        >= top_ports(ps)[j].1 by {
        assert(top_ports(ps)[i] == b[i] && top_ports(ps)[j] == b[j]);
    }
}

} // verus!
