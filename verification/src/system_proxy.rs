//! The operating-system settings that route traffic through the local proxy
//! and start the application with the system: what is written to the
//! Windows registry and to WinHTTP, which GNOME settings are changed, and the
//! autostart entries. The library computes them; the application applies
//! the part for its platform.

use crate::text::{
    decimal, has_prefix_at, parse_unsigned, parse_unsigned_chars, push_decimal,
    push_signed_decimal, signed_decimal, str_chars, strings_are,
};
use vstd::prelude::*;

verus! {

// ─── Errors ────────────────────────────────────────────────────────────────

/// Why a system setting could not be changed.
#[derive(Debug)]
pub enum ProxyError {
    SetFailed(String),
    UnsetFailed(String),
    CommandError(std::io::Error),
}

impl ProxyError {
    /// The message shown for the error, with `io_text` the text of the I/O
    /// error of a `CommandError`.
    pub open spec fn spec_message(&self, io_text: Seq<char>) -> Seq<char> {
        match self {
            ProxyError::SetFailed(m) => "Sistem proxy ayarı değiştirilemedi: "@ + m@,
            ProxyError::UnsetFailed(m) => "Sistem proxy ayarı temizlenemedi: "@ + m@,
            ProxyError::CommandError(_) => "Komut çalıştırılamadı: "@ + io_text,
        }
    }

    /// The message shown for the error.
    pub fn message(&self) -> (r: String)
        ensures
            self is CommandError ==> exists|io_text: Seq<char>| r@ == self.spec_message(io_text),
            !(self is CommandError) ==> r@ == self.spec_message(Seq::empty()),
    {
        match self {
            ProxyError::SetFailed(m) => {
                let mut r = String::from_str("Sistem proxy ayarı değiştirilemedi: ");
                r.append(m.as_str());
                r
            },
            ProxyError::UnsetFailed(m) => {
                let mut r = String::from_str("Sistem proxy ayarı temizlenemedi: ");
                r.append(m.as_str());
                r
            },
            ProxyError::CommandError(e) => {
                let t = crate::dpi_engine::io_error_text(e);
                let mut r = String::from_str("Komut çalıştırılamadı: ");
                r.append(t.as_str());
                assert(r@ == self.spec_message(t@));
                r
            },
        }
    }
}

/// The error reported when disabling the proxy failed with `e`: an
/// `UnsetFailed` carrying the message of `e`.
pub fn unset_error(e: &ProxyError) -> (r: ProxyError)
    ensures
        r matches ProxyError::UnsetFailed(m) && exists|io_text: Seq<char>|
            m@ == e.spec_message(io_text),
        !(e is CommandError) ==> (r matches ProxyError::UnsetFailed(m) && m@ == e.spec_message(
            Seq::empty(),
        )),
{
    ProxyError::UnsetFailed(e.message())
}

// ─── Applying the registry writes ──────────────────────────────────────────

/// What applying a plan's registry writes does next.
#[derive(Debug)]
pub enum ApplyStep {
    /// Carry out the write with this index.
    Write(usize),
    /// Every write succeeded.
    Finish,
    /// Stop here and report this error; no later write is tried.
    Fail(ProxyError),
}

/// The first step of applying `count` registry writes.
pub fn first_apply_step(count: usize) -> (step: ApplyStep)
    ensures
        count > 0 ==> (step matches ApplyStep::Write(i) && i == 0),
        count == 0 ==> step is Finish,
{
    if count > 0 {
        ApplyStep::Write(0)
    } else {
        ApplyStep::Finish
    }
}

/// The step after write `index` of `count` ended with `result`: the next
/// write, or the end after the last one; the first failure stops the writes
/// and is reported, as an `UnsetFailed` carrying its message when the proxy
/// was being disabled.
pub fn after_registry_write(index: usize, count: usize, result: Result<(), ProxyError>, unsetting: bool) -> (step:
    ApplyStep)
    requires
        index < count,
    ensures
        match result {
            Ok(_) => if index + 1 < count {
                step matches ApplyStep::Write(j) && j == index + 1
            } else {
                step is Finish
            },
            Err(e) => if unsetting {
                step matches ApplyStep::Fail(f) && f matches ProxyError::UnsetFailed(m) && (exists|
                    io_text: Seq<char>,
                | m@ == e.spec_message(io_text)) && (!(e is CommandError) ==> m@ == e.spec_message(
                    Seq::empty(),
                ))
            } else {
                step matches ApplyStep::Fail(f) && f == e
            },
        },
{
    match result {
        Ok(_) => {
            if index + 1 < count {
                ApplyStep::Write(index + 1)
            } else {
                ApplyStep::Finish
            }
        },
        Err(e) => {
            if unsetting {
                ApplyStep::Fail(unset_error(&e))
            } else {
                ApplyStep::Fail(e)
            }
        },
    }
}

// ─── Shutdown ──────────────────────────────────────────────────────────────

/// Whether the application is shutting down; then the slow system-wide
/// notifications (WinHTTP, the settings-changed broadcast) are skipped.
#[derive(Debug)]
pub struct ShutdownState {
    pub shutting_down: bool,
}

impl ShutdownState {
    /// Not shutting down.
    pub fn new() -> (s: Self)
        ensures
            !s.shutting_down,
    {
        ShutdownState { shutting_down: false }
    }
}

/// Marks the beginning of the shutdown cleanup.
pub fn begin_shutdown_cleanup(state: &mut ShutdownState)
    ensures
        final(state).shutting_down,
{
    state.shutting_down = true;
}

// ─── Registry values ───────────────────────────────────────────────────────

/// The UTF-16 code units of `c`.
pub open spec fn utf16_units(c: char) -> Seq<u16> {
    let u = c as u32;
    if u < 0x10000 {
        seq![u as u16]
    } else {
        let v = u - 0x10000;
        seq![(0xD800 + v / 0x400) as u16, (0xDC00 + v % 0x400) as u16]
    }
}

/// The UTF-16 encoding of `s`.
pub open spec fn encode_utf16(s: Seq<char>) -> Seq<u16>
    decreases s.len(),
{
    if s.len() == 0 {
        Seq::empty()
    } else {
        encode_utf16(s.drop_last()) + utf16_units(s.last())
    }
}

/// `value` in UTF-16 followed by a terminating 0, as Windows wide-string
/// APIs take it.
pub fn widestring(value: &str) -> (w: Vec<u16>)
    ensures
        w@ == encode_utf16(value@).push(0u16),
{
    let cs = str_chars(value);
    let mut w: Vec<u16> = Vec::new();
    let mut i: usize = 0;
    while i < cs.len()
        invariant
            i <= cs@.len(),
            cs@ == value@,
            w@ == encode_utf16(cs@.take(i as int)),
        decreases cs@.len() - i,
    {
        assert(cs@.take(i + 1).drop_last() =~= cs@.take(i as int));
        let u = cs[i] as u32;
        if u < 0x10000 {
            w.push(u as u16);
        } else {
            let v = u - 0x10000;
            assert(v < 0x100000) by {
                vstd::utf8::char_is_scalar(cs@[i as int]);
            }
            w.push((0xD800 + v / 0x400) as u16);
            w.push((0xDC00 + v % 0x400) as u16);
        }
        assert(w@ =~= encode_utf16(cs@.take(i + 1)));
        i = i + 1;
    }
    assert(cs@.take(cs@.len() as int) =~= value@);
    w.push(0);
    w
}

/// The little-endian bytes of the code units `units`.
pub open spec fn le_bytes_u16(units: Seq<u16>) -> Seq<u8>
    decreases units.len(),
{
    if units.len() == 0 {
        Seq::empty()
    } else {
        le_bytes_u16(units.drop_last()) + seq![
            (units.last() % 256) as u8,
            (units.last() / 256) as u8,
        ]
    }
}

/// The little-endian bytes of `v`.
pub open spec fn le_bytes_u32(v: u32) -> Seq<u8> {
    seq![(v % 256) as u8, ((v / 256) % 256) as u8, ((v / 65536) % 256) as u8, (v / 16777216) as u8]
}

/// A registry value ready to be written: its type code and its data.
#[derive(Debug)]
pub struct RegistryValue {
    pub kind: u32,
    pub bytes: Vec<u8>,
}

/// The type code of `REG_SZ`.
pub const REG_SZ: u32 = 1;

/// The type code of `REG_DWORD`.
pub const REG_DWORD: u32 = 4;

/// The value a registry write of type `reg_type` with the text `data`
/// stores: for "REG_DWORD" the `u32` that `data` parses to, in little-endian
/// bytes; for "REG_SZ" `data` as a terminated UTF-16 string in little-endian
/// bytes. A `data` that does not parse gives "<context>: <parse error>", any
/// other type "<context>: unsupported registry type <type>".
pub open spec fn spec_registry_value(reg_type: Seq<char>, data: Seq<char>, context: Seq<char>) -> Result<
    (u32, Seq<u8>),
    Seq<char>,
> {
    if reg_type == "REG_DWORD"@ {
        match parse_unsigned(data, u32::MAX as nat) {
            Ok(v) => Ok((REG_DWORD, le_bytes_u32(v as u32))),
            Err(k) => Err(context + ": "@ + k.spec_message()),
        }
    } else if reg_type == "REG_SZ"@ {
        Ok((REG_SZ, le_bytes_u16(encode_utf16(data).push(0u16))))
    } else {
        Err(context + ": unsupported registry type "@ + reg_type)
    }
}

/// The 16-bit units that little-endian `bytes` hold, two bytes each.
pub open spec fn le_units(bytes: Seq<u8>) -> Seq<u16> {
    Seq::new(bytes.len() / 2, |i: int| (bytes[2 * i] + 256 * bytes[2 * i + 1]) as u16)
}

/// The text that UTF-16 `units` encode: a high surrogate followed by a low
/// one gives the supplementary character they combine to; any other unit
/// gives the character of its value.
pub open spec fn decode_utf16(units: Seq<u16>) -> Seq<char>
    decreases units.len(),
{
    if units.len() == 0 {
        Seq::empty()
    } else if units.len() >= 2 && 0xD800 <= units[0] < 0xDC00 && 0xDC00 <= units[1] < 0xE000 {
        seq![((0x10000 + (units[0] - 0xD800) * 0x400 + (units[1] - 0xDC00)) as u32) as char] + decode_utf16(
            units.skip(2),
        )
    } else {
        seq![(units[0] as u32) as char] + decode_utf16(units.skip(1))
    }
}

proof fn lemma_le_units_of_bytes(u: Seq<u16>)
    ensures
        le_bytes_u16(u).len() == 2 * u.len(),
        le_units(le_bytes_u16(u)) == u,
    decreases u.len(),
{
    if u.len() > 0 {
        let init = u.drop_last();
        lemma_le_units_of_bytes(init);
        let x = u.last();
        let lo = (x % 256) as u8;
        let hi = (x / 256) as u8;
        assert(lo == x % 256 && hi == x / 256);
        assert(lo + 256 * hi == x) by (nonlinear_arith)
            requires
                lo == x % 256,
                hi == x / 256,
        ;
        let b = le_bytes_u16(u);
        let bi = le_bytes_u16(init);
        assert(b == bi + seq![lo, hi]);
        assert forall|i: int| 0 <= i < u.len() implies #[trigger] le_units(b)[i] == u[i] by {
            if i < init.len() {
                assert(b[2 * i] == bi[2 * i] && b[2 * i + 1] == bi[2 * i + 1]);
                assert(le_units(bi)[i] == init[i]);
            } else {
                assert(b[2 * i] == lo && b[2 * i + 1] == hi);
            }
        }
        assert(le_units(b) =~= u);
    }
}

proof fn lemma_encode_utf16_front(s: Seq<char>)
    requires
        s.len() > 0,
    ensures
        encode_utf16(s) == utf16_units(s[0]) + encode_utf16(s.drop_first()),
    decreases s.len(),
{
    if s.len() == 1 {
        assert(s.drop_last() =~= Seq::<char>::empty());
        assert(s.drop_first() =~= Seq::<char>::empty());
        assert(encode_utf16(Seq::<char>::empty()) =~= Seq::<u16>::empty());
        assert(utf16_units(s[0]) + Seq::<u16>::empty() =~= utf16_units(s[0]));
    } else {
        lemma_encode_utf16_front(s.drop_last());
        assert(s.drop_last().drop_first() =~= s.drop_first().drop_last());
        assert(s.drop_first().last() == s.last());
        assert(encode_utf16(s.drop_first()) == encode_utf16(s.drop_first().drop_last()) + utf16_units(s.last()));
        assert(encode_utf16(s) =~= utf16_units(s[0]) + encode_utf16(s.drop_first()));
    }
}

proof fn lemma_decode_units_of_char(c: char, rest: Seq<u16>)
    ensures
        decode_utf16(utf16_units(c) + rest) == seq![c] + decode_utf16(rest),
{
    let u = c as u32;
    vstd::utf8::char_is_scalar(c);
    let w = utf16_units(c) + rest;
    if u < 0x10000 {
        assert(!(0xD800 <= u < 0xE000));
        assert(w[0] == u as u16);
        assert((u as u16) as u32 == u);
        vstd::utf8::char_u32_cast(c, u);
        assert(w.skip(1) =~= rest);
    } else {
        let v = (u - 0x10000) as u32;
        assert(v < 0x100000);
        let q = v / 0x400;
        let r = v % 0x400;
        assert(q < 0x400 && r < 0x400 && q * 0x400 + r == v) by (nonlinear_arith)
            requires
                v < 0x100000,
                q == v / 0x400,
                r == v % 0x400,
        ;
        assert(w[0] == (0xD800 + q) as u16 && w[1] == (0xDC00 + r) as u16);
        assert(w[0] == 0xD800 + q && w[1] == 0xDC00 + r);
        assert((0x10000 + (w[0] - 0xD800) * 0x400 + (w[1] - 0xDC00)) == u);
        vstd::utf8::char_u32_cast(c, u);
        assert(w.skip(2) =~= rest);
    }
}

proof fn lemma_decode_encode_utf16(s: Seq<char>)
    ensures
        decode_utf16(encode_utf16(s)) == s,
    decreases s.len(),
{
    if s.len() == 0 {
        assert(encode_utf16(s) =~= Seq::<u16>::empty());
    } else {
        lemma_encode_utf16_front(s);
        lemma_decode_encode_utf16(s.drop_first());
        lemma_decode_units_of_char(s[0], encode_utf16(s.drop_first()));
        assert(seq![s[0]] + s.drop_first() =~= s);
    }
}

/// A REG_SZ value holds the whole text, of any length: its bytes are
/// little-endian 16-bit units, the last of them the terminating 0, and the
/// units before it decode as UTF-16 to the text itself.
pub proof fn lemma_reg_sz_holds_whole_text(data: Seq<char>, context: Seq<char>)
    ensures
        spec_registry_value("REG_SZ"@, data, context) matches Ok((kind, bytes)) && kind == REG_SZ
            && bytes.len() == 2 * le_units(bytes).len() && le_units(bytes).len() >= 1 && le_units(
            bytes,
        ).last() == 0u16 && decode_utf16(le_units(bytes).drop_last()) == data,
{
    reveal_strlit("REG_SZ");
    reveal_strlit("REG_DWORD");
    assert("REG_SZ"@ != "REG_DWORD"@) by {
        assert("REG_SZ"@.len() != "REG_DWORD"@.len());
    }
    let u = encode_utf16(data).push(0u16);
    lemma_le_units_of_bytes(u);
    assert(u.drop_last() =~= encode_utf16(data));
    lemma_decode_encode_utf16(data);
}

proof fn lemma_le_bytes_u32(v: u32)
    ensures
        le_bytes_u32(v).len() == 4,
        le_bytes_u32(v)[0] + 256 * le_bytes_u32(v)[1] + 65536 * le_bytes_u32(v)[2] + 16777216 * le_bytes_u32(
            v,
        )[3] == v,
{
    let b0 = v % 256;
    let b1 = (v / 256) % 256;
    let b2 = (v / 65536) % 256;
    let b3 = v / 16777216;
    assert(b0 + 256 * b1 + 65536 * b2 + 16777216 * b3 == v) by (nonlinear_arith)
        requires
            b0 == v % 256,
            b1 == (v / 256) % 256,
            b2 == (v / 65536) % 256,
            b3 == v / 16777216,
    {
        assert(v == 256 * (v / 256) + v % 256);
        assert(v / 256 == 256 * ((v / 256) / 256) + (v / 256) % 256);
        assert((v / 256) / 256 == v / 65536);
        assert(v / 65536 == 256 * ((v / 65536) / 256) + (v / 65536) % 256);
        assert((v / 65536) / 256 == v / 16777216);
    }
    assert(b3 < 256);
    assert(le_bytes_u32(v)[0] == b0 && le_bytes_u32(v)[1] == b1 && le_bytes_u32(v)[2] == b2
        && le_bytes_u32(v)[3] == b3);
}

/// A REG_DWORD value is the number its text parses to, in four
/// little-endian bytes; a text that does not parse as a `u32` is an error,
/// and so is any type but REG_DWORD and REG_SZ.
pub proof fn lemma_reg_dword_holds_number(data: Seq<char>, context: Seq<char>, reg_type: Seq<char>)
    ensures
        parse_unsigned(data, u32::MAX as nat) matches Ok(v) ==> (spec_registry_value(
            "REG_DWORD"@,
            data,
            context,
        ) matches Ok((kind, bytes)) && kind == REG_DWORD && bytes.len() == 4 && bytes[0] + 256 * bytes[1]
            + 65536 * bytes[2] + 16777216 * bytes[3] == v),
        parse_unsigned(data, u32::MAX as nat) is Err ==> spec_registry_value("REG_DWORD"@, data, context) is Err,
        reg_type != "REG_DWORD"@ && reg_type != "REG_SZ"@ ==> spec_registry_value(reg_type, data, context) is Err,
{
    if let Ok(v) = parse_unsigned(data, u32::MAX as nat) {
        lemma_le_bytes_u32(v as u32);
    }
}

/// Encodes the data of a registry write as [`spec_registry_value`] says;
/// errors are `SetFailed`.
pub fn registry_value(reg_type: &str, data: &str, context: &str) -> (r: Result<
    RegistryValue,
    ProxyError,
>)
    ensures
        match (r, spec_registry_value(reg_type@, data@, context@)) {
            (Ok(v), Ok((kind, bytes))) => v.kind == kind && v.bytes@ == bytes,
            (Err(e), Err(m)) => e matches ProxyError::SetFailed(em) && em@ == m,
            _ => false,
        },
{
    let t = str_chars(reg_type);
    let dword = str_chars("REG_DWORD");
    let sz = str_chars("REG_SZ");
    if crate::text::same_chars(&t, &dword) {
        let d = str_chars(data);
        assert(d@.subrange(0, d@.len() as int) =~= d@);
        match parse_unsigned_chars(&d, 0, d.len(), 0xffff_ffff) {
            Ok(v) => {
                let v = v as u32;
                let mut bytes: Vec<u8> = Vec::new();
                bytes.push((v % 256) as u8);
                bytes.push(((v / 256) % 256) as u8);
                bytes.push(((v / 65536) % 256) as u8);
                bytes.push((v / 16777216) as u8);
                assert(bytes@ =~= le_bytes_u32(v));
                Ok(RegistryValue { kind: REG_DWORD, bytes })
            },
            Err(k) => {
                let mut m = String::from_str(context);
                m.append(": ");
                let km = k.message();
                m.append(km.as_str());
                Err(ProxyError::SetFailed(m))
            },
        }
    } else if crate::text::same_chars(&t, &sz) {
        let w = widestring(data);
        let mut bytes: Vec<u8> = Vec::new();
        let mut i: usize = 0;
        while i < w.len()
            invariant
                i <= w@.len(),
                bytes@ == le_bytes_u16(w@.take(i as int)),
            decreases w@.len() - i,
        {
            assert(w@.take(i + 1).drop_last() =~= w@.take(i as int));
            bytes.push((w[i] % 256) as u8);
            bytes.push((w[i] / 256) as u8);
            assert(bytes@ =~= le_bytes_u16(w@.take(i + 1)));
            i = i + 1;
        }
        assert(w@.take(w@.len() as int) =~= w@);
        Ok(RegistryValue { kind: REG_SZ, bytes })
    } else {
        let mut m = String::from_str(context);
        m.append(": unsupported registry type ");
        m.append(reg_type);
        Err(ProxyError::SetFailed(m))
    }
}

/// The outcome of a registry write that returned the Win32 status `status`:
/// success for 0, else `SetFailed("<context>: Win32 registry status <status>")`.
pub fn registry_status(status: i32, context: &str) -> (r: Result<(), ProxyError>)
    ensures
        status == 0 ==> r is Ok,
        status != 0 ==> (r matches Err(ProxyError::SetFailed(m)) && m@ == context@
            + ": Win32 registry status "@ + signed_decimal(status as int)),
{
    if status == 0 {
        return Ok(());
    }
    let mut m = String::from_str(context);
    m.append(": Win32 registry status ");
    push_signed_decimal(&mut m, status as i64);
    Err(ProxyError::SetFailed(m))
}

// ─── Proxy settings ────────────────────────────────────────────────────────

/// The registry key of the Internet settings of the current user.
pub open spec fn spec_internet_settings_key() -> Seq<char> {
    "Software\\Microsoft\\Windows\\CurrentVersion\\Internet Settings"@
}

/// The addresses that bypass the proxy: local and private networks, and the
/// Microsoft, Windows Update, Xbox and CDN hosts that installers reach.
pub open spec fn spec_proxy_override() -> Seq<char> {
    "localhost;127.0.0.1;127.*;<local>;10.*;172.16.*;172.17.*;172.18.*;172.19.*;172.20.*;172.21.*;172.22.*;172.23.*;172.24.*;172.25.*;172.26.*;172.27.*;172.28.*;172.29.*;172.30.*;172.31.*;192.168.*;*.microsoft.com;*.microsoftonline.com;*.windows.com;*.windows.net;*.windowsupdate.com;*.mp.microsoft.com;*.delivery.mp.microsoft.com;*.s-microsoft.com;*.msedge.net;*.azureedge.net;*.trafficmanager.net;*.akamaized.net;*.akamaihd.net;*.akadns.net;*.live.com;*.xboxlive.com;*.xboxservices.com;*.bing.com"@
}

fn internet_settings_key() -> (r: String)
    ensures
        r@ == spec_internet_settings_key(),
{
    String::from_str("Software\\Microsoft\\Windows\\CurrentVersion\\Internet Settings")
}

fn proxy_override() -> (r: String)
    ensures
        r@ == spec_proxy_override(),
{
    String::from_str(
        "localhost;127.0.0.1;127.*;<local>;10.*;172.16.*;172.17.*;172.18.*;172.19.*;172.20.*;172.21.*;172.22.*;172.23.*;172.24.*;172.25.*;172.26.*;172.27.*;172.28.*;172.29.*;172.30.*;172.31.*;192.168.*;*.microsoft.com;*.microsoftonline.com;*.windows.com;*.windows.net;*.windowsupdate.com;*.mp.microsoft.com;*.delivery.mp.microsoft.com;*.s-microsoft.com;*.msedge.net;*.azureedge.net;*.trafficmanager.net;*.akamaized.net;*.akamaihd.net;*.akadns.net;*.live.com;*.xboxlive.com;*.xboxservices.com;*.bing.com",
    )
}

/// "127.0.0.1:<port>", the address of the local proxy.
pub open spec fn proxy_address(port: u16) -> Seq<char> {
    "127.0.0.1:"@ + decimal(port as nat)
}

/// "http=<address>;https=<address>", the Windows proxy server setting.
pub open spec fn proxy_server(port: u16) -> Seq<char> {
    "http="@ + proxy_address(port) + ";https="@ + proxy_address(port)
}

/// One registry value written under the Internet settings key.
#[derive(Debug)]
pub struct RegistryWrite {
    pub value: String,
    pub reg_type: String,
    pub data: String,
    /// Names the write in error messages.
    pub context: String,
}

impl RegistryWrite {
    pub open spec fn is(self, value: Seq<char>, reg_type: Seq<char>, data: Seq<char>, context: Seq<char>) -> bool {
        self.value@ == value && self.reg_type@ == reg_type && self.data@ == data && self.context@ == context
    }
}

fn registry_write(value: &str, reg_type: &str, data: String, context: &str) -> (w: RegistryWrite)
    ensures
        w.is(value@, reg_type@, data@, context@),
{
    RegistryWrite {
        value: String::from_str(value),
        reg_type: String::from_str(reg_type),
        data,
        context: String::from_str(context),
    }
}

/// The changes that route the system's traffic through, or away from, the
/// local proxy. On Windows: the registry writes in order, then the values
/// deleted, then the `netsh` arguments for WinHTTP, then the broadcast that
/// the Internet settings changed. On Linux: the `gsettings` commands, run
/// when `gsettings` is installed.
#[derive(Debug)]
pub struct ProxyPlan {
    /// The registry key the writes and deletions go to.
    pub registry_key: String,
    pub registry_writes: Vec<RegistryWrite>,
    pub registry_deletes: Vec<String>,
    /// The `netsh` arguments, or `None` to leave WinHTTP alone.
    pub winhttp_args: Option<Vec<String>>,
    /// Whether to broadcast that the Internet settings changed.
    pub notify_settings_changed: bool,
    pub gsettings_commands: Vec<Vec<String>>,
}

fn string_vec1(a: &str) -> (v: Vec<String>)
    ensures
        strings_are(v@, seq![a@]),
{
    let mut v = Vec::new();
    v.push(String::from_str(a));
    v
}

fn push_string(v: &mut Vec<String>, a: &str)
    ensures
        final(v)@.len() == old(v)@.len() + 1,
        forall|i: int| 0 <= i < old(v)@.len() ==> final(v)@[i] == old(v)@[i],
        final(v)@[old(v)@.len() as int]@ == a@,
{
    v.push(String::from_str(a));
}

fn gsettings_set(schema: &str, key: &str, value: &str) -> (v: Vec<String>)
    ensures
        strings_are(v@, seq!["set"@, schema@, key@, value@]),
{
    let mut v = string_vec1("set");
    push_string(&mut v, schema);
    push_string(&mut v, key);
    push_string(&mut v, value);
    v
}

/// The plan that routes traffic through the proxy on `port`: on Windows
/// ProxyEnable = 1, ProxyServer = "http=127.0.0.1:<port>;https=127.0.0.1:<port>",
/// ProxyOverride = the bypass list, AutoDetect = 0, AutoConfigURL deleted,
/// WinHTTP set to the same server and bypass list and the change broadcast
/// (these two not while shutting down); on GNOME the manual proxy mode with
/// 127.0.0.1 and `port` for HTTP and HTTPS.
pub fn set_system_proxy(port: u16, shutdown: &ShutdownState) -> (plan: ProxyPlan)
    ensures
        plan.registry_key@ == spec_internet_settings_key(),
        plan.registry_writes@.len() == 4,
        plan.registry_writes@[0].is("ProxyEnable"@, "REG_DWORD"@, "1"@, "ProxyEnable"@),
        plan.registry_writes@[1].is("ProxyServer"@, "REG_SZ"@, proxy_server(port), "ProxyServer"@),
        plan.registry_writes@[2].is(
            "ProxyOverride"@,
            "REG_SZ"@,
            spec_proxy_override(),
            "ProxyOverride"@,
        ),
        plan.registry_writes@[3].is("AutoDetect"@, "REG_DWORD"@, "0"@, "AutoDetect"@),
        strings_are(plan.registry_deletes@, seq!["AutoConfigURL"@]),
        shutdown.shutting_down ==> plan.winhttp_args is None,
        !shutdown.shutting_down ==> (plan.winhttp_args matches Some(a) && strings_are(
            a@,
            seq![
                "winhttp"@,
                "set"@,
                "proxy"@,
                "proxy-server="@ + proxy_server(port),
                "bypass-list="@ + spec_proxy_override(),
            ],
        )),
        plan.notify_settings_changed == !shutdown.shutting_down,
        plan.gsettings_commands@.len() == 5,
        strings_are(plan.gsettings_commands@[0]@, seq!["set"@, "org.gnome.system.proxy"@, "mode"@, "'manual'"@]),
        strings_are(plan.gsettings_commands@[1]@, seq!["set"@, "org.gnome.system.proxy.http"@, "host"@, "'127.0.0.1'"@]),
        strings_are(plan.gsettings_commands@[2]@, seq!["set"@, "org.gnome.system.proxy.http"@, "port"@, decimal(port as nat)]),
        strings_are(plan.gsettings_commands@[3]@, seq!["set"@, "org.gnome.system.proxy.https"@, "host"@, "'127.0.0.1'"@]),
        strings_are(plan.gsettings_commands@[4]@, seq!["set"@, "org.gnome.system.proxy.https"@, "port"@, decimal(port as nat)]),
{
    let mut addr = String::from_str("127.0.0.1:");
    push_decimal(&mut addr, port as u64);
    let mut server = String::from_str("http=");
    server.append(addr.as_str());
    server.append(";https=");
    server.append(addr.as_str());
    let mut writes: Vec<RegistryWrite> = Vec::new();
    writes.push(registry_write("ProxyEnable", "REG_DWORD", String::from_str("1"), "ProxyEnable"));
    writes.push(registry_write("ProxyServer", "REG_SZ", server.clone(), "ProxyServer"));
    writes.push(registry_write("ProxyOverride", "REG_SZ", proxy_override(), "ProxyOverride"));
    writes.push(registry_write("AutoDetect", "REG_DWORD", String::from_str("0"), "AutoDetect"));
    let deletes = string_vec1("AutoConfigURL");
    let winhttp_args = if shutdown.shutting_down {
        None
    } else {
        let mut a = string_vec1("winhttp");
        push_string(&mut a, "set");
        push_string(&mut a, "proxy");
        let mut ps = String::from_str("proxy-server=");
        ps.append(server.as_str());
        a.push(ps);
        let mut bl = String::from_str("bypass-list=");
        let ov = proxy_override();
        bl.append(ov.as_str());
        a.push(bl);
        Some(a)
    };
    let mut port_text = String::new();
    push_decimal(&mut port_text, port as u64);
    let mut commands: Vec<Vec<String>> = Vec::new();
    commands.push(gsettings_set("org.gnome.system.proxy", "mode", "'manual'"));
    commands.push(gsettings_set("org.gnome.system.proxy.http", "host", "'127.0.0.1'"));
    commands.push(gsettings_set("org.gnome.system.proxy.http", "port", port_text.as_str()));
    commands.push(gsettings_set("org.gnome.system.proxy.https", "host", "'127.0.0.1'"));
    commands.push(gsettings_set("org.gnome.system.proxy.https", "port", port_text.as_str()));
    ProxyPlan {
        registry_key: internet_settings_key(),
        registry_writes: writes,
        registry_deletes: deletes,
        winhttp_args,
        notify_settings_changed: !shutdown.shutting_down,
        gsettings_commands: commands,
    }
}

/// The plan that stops routing traffic through the proxy: on Windows
/// ProxyEnable = 0, WinHTTP reset and the change broadcast (these two not
/// while shutting down); on GNOME the proxy mode 'none'. A failed registry
/// write is reported through [`unset_error`].
pub fn unset_system_proxy(shutdown: &ShutdownState) -> (plan: ProxyPlan)
    ensures
        plan.registry_key@ == spec_internet_settings_key(),
        plan.registry_writes@.len() == 1,
        plan.registry_writes@[0].is("ProxyEnable"@, "REG_DWORD"@, "0"@, "ProxyEnable"@),
        plan.registry_deletes@.len() == 0,
        shutdown.shutting_down ==> plan.winhttp_args is None,
        !shutdown.shutting_down ==> (plan.winhttp_args matches Some(a) && strings_are(
            a@,
            seq!["winhttp"@, "reset"@, "proxy"@],
        )),
        plan.notify_settings_changed == !shutdown.shutting_down,
        plan.gsettings_commands@.len() == 1,
        strings_are(plan.gsettings_commands@[0]@, seq!["set"@, "org.gnome.system.proxy"@, "mode"@, "'none'"@]),
{
    let mut writes: Vec<RegistryWrite> = Vec::new();
    writes.push(registry_write("ProxyEnable", "REG_DWORD", String::from_str("0"), "ProxyEnable"));
    let winhttp_args = if shutdown.shutting_down {
        None
    } else {
        let mut a = string_vec1("winhttp");
        push_string(&mut a, "reset");
        push_string(&mut a, "proxy");
        Some(a)
    };
    let mut commands: Vec<Vec<String>> = Vec::new();
    commands.push(gsettings_set("org.gnome.system.proxy", "mode", "'none'"));
    ProxyPlan {
        registry_key: internet_settings_key(),
        registry_writes: writes,
        registry_deletes: Vec::new(),
        winhttp_args,
        notify_settings_changed: !shutdown.shutting_down,
        gsettings_commands: commands,
    }
}

// ─── Autostart ─────────────────────────────────────────────────────────────

/// The changes that add the application to, or remove it from, the programs
/// started with the system: the arguments of the Windows `reg` command, and
/// the XDG autostart entry on Linux (its file name, and its text when it is
/// written).
#[derive(Debug)]
pub struct AutostartPlan {
    pub reg_args: Vec<String>,
    pub desktop_file_name: String,
    pub desktop_entry: Option<String>,
}

/// The registry key of the programs started at log-on.
pub open spec fn spec_run_key() -> Seq<char> {
    "HKCU\\Software\\Microsoft\\Windows\\CurrentVersion\\Run"@
}

/// The XDG autostart entry that runs `exe_path`.
pub open spec fn spec_desktop_entry(exe_path: Seq<char>) -> Seq<char> {
    "[Desktop Entry]\nType=Application\nName=SxDPI\nComment=DPI Bypass Application\nExec="@ + exe_path
        + "\nTerminal=false\nStartupNotify=false\nX-GNOME-Autostart-enabled=true\n"@
}

/// The plan that starts the application at `exe_path` with the system: on
/// Windows the value "SxDPI" of the Run key set to the path; on Linux the
/// autostart entry "sxdpi.desktop".
pub fn enable_autostart(exe_path: &str) -> (plan: AutostartPlan)
    ensures
        strings_are(
            plan.reg_args@,
            seq!["add"@, spec_run_key(), "/v"@, "SxDPI"@, "/t"@, "REG_SZ"@, "/d"@, exe_path@, "/f"@],
        ),
        plan.desktop_file_name@ == "sxdpi.desktop"@,
        plan.desktop_entry matches Some(e) && e@ == spec_desktop_entry(exe_path@),
{
    let mut a = string_vec1("add");
    push_string(&mut a, "HKCU\\Software\\Microsoft\\Windows\\CurrentVersion\\Run");
    push_string(&mut a, "/v");
    push_string(&mut a, "SxDPI");
    push_string(&mut a, "/t");
    push_string(&mut a, "REG_SZ");
    push_string(&mut a, "/d");
    push_string(&mut a, exe_path);
    push_string(&mut a, "/f");
    let mut e = String::from_str(
        "[Desktop Entry]\nType=Application\nName=SxDPI\nComment=DPI Bypass Application\nExec=",
    );
    e.append(exe_path);
    e.append("\nTerminal=false\nStartupNotify=false\nX-GNOME-Autostart-enabled=true\n");
    AutostartPlan {
        reg_args: a,
        desktop_file_name: String::from_str("sxdpi.desktop"),
        desktop_entry: Some(e),
    }
}

/// The plan that no longer starts the application with the system: on
/// Windows the value "SxDPI" of the Run key deleted; on Linux the autostart
/// entry "sxdpi.desktop" removed when it exists.
pub fn disable_autostart() -> (plan: AutostartPlan)
    ensures
        strings_are(plan.reg_args@, seq!["delete"@, spec_run_key(), "/v"@, "SxDPI"@, "/f"@]),
        plan.desktop_file_name@ == "sxdpi.desktop"@,
        plan.desktop_entry is None,
{
    let mut a = string_vec1("delete");
    push_string(&mut a, "HKCU\\Software\\Microsoft\\Windows\\CurrentVersion\\Run");
    push_string(&mut a, "/v");
    push_string(&mut a, "SxDPI");
    push_string(&mut a, "/f");
    AutostartPlan {
        reg_args: a,
        desktop_file_name: String::from_str("sxdpi.desktop"),
        desktop_entry: None,
    }
}

/// `p` occurs in `s`.
pub open spec fn contains_text(s: Seq<char>, p: Seq<char>) -> bool {
    exists|i: int| 0 <= i && i + p.len() <= s.len() && #[trigger] s.subrange(i, i + p.len()) == p
}

/// Whether `p` occurs in `s`.
pub fn text_contains(s: &str, p: &str) -> (r: bool)
    ensures
        r == contains_text(s@, p@),
{
    let cs = str_chars(s);
    let ps = str_chars(p);
    let n = cs.len();
    let mut i: usize = 0;
    while i <= n
        invariant
            n == cs@.len(),
            cs@ == s@,
            ps@ == p@,
            forall|j: int| 0 <= j < i && j + p@.len() <= n ==> #[trigger] s@.subrange(j, j + p@.len()) != p@,
        ensures
            forall|j: int| 0 <= j && j + p@.len() <= n ==> #[trigger] s@.subrange(j, j + p@.len()) != p@,
        decreases n + 1 - i,
    {
        if has_prefix_at(&cs, i, n, &ps) {
            assert(cs@.subrange(i as int, n as int).take(ps@.len() as int) =~= s@.subrange(
                i as int,
                i + p@.len(),
            ));
            return true;
        }
        proof {
            if i + p@.len() <= n {
                assert(cs@.subrange(i as int, n as int).take(ps@.len() as int) =~= s@.subrange(
                    i as int,
                    i + p@.len(),
                ));
            }
        }
        if i == n {
            break;
        }
        i = i + 1;
    }
    false
}

/// The outcome of the Windows `reg` command run for `plan`'s autostart
/// change, from whether it succeeded and what it wrote to its error output:
/// a failed addition is `SetFailed(stderr)`; a failed removal is
/// `UnsetFailed(stderr)` unless the output says the value was "unable to
/// find", which means there was nothing to remove.
pub fn autostart_command_result(enabling: bool, success: bool, stderr: &str) -> (r: Result<
    (),
    ProxyError,
>)
    ensures
        success ==> r is Ok,
        !success && enabling ==> (r matches Err(ProxyError::SetFailed(m)) && m@ == stderr@),
        !success && !enabling && contains_text(stderr@, "unable to find"@) ==> r is Ok,
        !success && !enabling && !contains_text(stderr@, "unable to find"@) ==> (r matches Err(
            ProxyError::UnsetFailed(m),
        ) && m@ == stderr@),
{
    if success {
        return Ok(());
    }
    if enabling {
        return Err(ProxyError::SetFailed(String::from_str(stderr)));
    }
    if text_contains(stderr, "unable to find") {
        Ok(())
    } else {
        Err(ProxyError::UnsetFailed(String::from_str(stderr)))
    }
}

} // verus!
