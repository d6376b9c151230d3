//! The decisions behind the daemon's self-signed TLS certificate.
//!
//! Phones need HTTPS (or literal `localhost`) before their browser will grant
//! Geolocation access, so the daemon terminates TLS itself with a self-signed
//! certificate. It is generated once and persisted, so that it stays stable
//! across restarts and the user only has to click through the browser's
//! "untrusted cert" warning once. This module decides when to generate one and
//! what it must say; creating the key, signing and file handling are the
//! caller's.

use vstd::prelude::*;

verus! {

/// File name of the persisted certificate.
pub const CERT_FILENAME: &'static str = "cert.pem";

/// File name of the persisted private key.
pub const KEY_FILENAME: &'static str = "key.pem";

/// The certificate's subject common name.
pub const COMMON_NAME: &'static str = "Rayhunter";

pub const SECONDS_PER_DAY: i64 = 86400;

/// How far the certificate is backdated, to tolerate the device's clock being
/// a bit behind before it's synced.
pub const BACKDATE_DAYS: i64 = 1;

/// A bound, in seconds either side of the Unix epoch, on the times the clock
/// can report.
pub const CLOCK_RANGE: i64 = 100_000_000_000_000;

/// How long the certificate stays valid after it is made: ten years of 365 days.
pub const VALIDITY_DAYS: i64 = 3650;

/// An IP address subject alternative name.
#[derive(Debug, Clone, Copy, PartialEq, Eq, Structural)]
pub enum SubjectAltName {
    Ipv4(u8, u8, u8, u8),
    Ipv6(u16, u16, u16, u16, u16, u16, u16, u16),
}

/// Every LAN IP the supported devices hand out by default, plus loopback for
/// local debugging. IP SANs can't be wildcarded, so this is an explicit list.
pub open spec fn lan_subject_alt_names() -> Seq<SubjectAltName> {
    seq![
        SubjectAltName::Ipv4(192, 168, 0, 1),
        SubjectAltName::Ipv4(192, 168, 1, 1),
        SubjectAltName::Ipv4(127, 0, 0, 1),
        SubjectAltName::Ipv6(0, 0, 0, 0, 0, 0, 0, 1),
    ]
}

/// The certificate's subject alternative names.
pub fn subject_alt_names() -> (r: Vec<SubjectAltName>)
    ensures
        r@ == lan_subject_alt_names(),
{
    let mut v = Vec::new();
    v.push(SubjectAltName::Ipv4(192, 168, 0, 1));
    v.push(SubjectAltName::Ipv4(192, 168, 1, 1));
    v.push(SubjectAltName::Ipv4(127, 0, 0, 1));
    v.push(SubjectAltName::Ipv6(0, 0, 0, 0, 0, 0, 0, 1));
    assert(v@ =~= lan_subject_alt_names());
    v
}

/// A key usage the certificate asserts.
#[derive(Debug, Clone, Copy, PartialEq, Eq, Structural)]
pub enum KeyUsage {
    DigitalSignature,
    KeyEncipherment,
}

pub open spec fn server_key_usages() -> Seq<KeyUsage> {
    seq![KeyUsage::DigitalSignature, KeyUsage::KeyEncipherment]
}

/// What the self-signed certificate says. Times are seconds since the Unix
/// epoch.
#[derive(Debug, Clone)]
pub struct CertificatePlan {
    pub common_name: String,
    pub subject_alt_names: Vec<SubjectAltName>,
    pub key_usages: Vec<KeyUsage>,
    pub serial_number: u64,
    pub not_before: i64,
    pub not_after: i64,
}

/// Whether the validity window around `now` is representable.
pub open spec fn validity_fits(now: int) -> bool {
    &&& now - BACKDATE_DAYS * SECONDS_PER_DAY >= i64::MIN
    &&& now + VALIDITY_DAYS * SECONDS_PER_DAY <= i64::MAX
}

/// The plan for a certificate made at `now`: it is the one this module
/// describes, with the given serial number.
pub open spec fn is_plan_for(p: CertificatePlan, now: int) -> bool {
    &&& p.common_name@ == COMMON_NAME@
    &&& p.subject_alt_names@ == lan_subject_alt_names()
    &&& p.key_usages@ == server_key_usages()
    &&& p.not_before == now - BACKDATE_DAYS * SECONDS_PER_DAY
    &&& p.not_after == now + VALIDITY_DAYS * SECONDS_PER_DAY
}

/// The certificate to make at `now` (seconds since the Unix epoch), with the
/// given serial number: valid from a day before `now` until ten years after.
pub fn certificate_plan(now: i64, serial_number: u64) -> (r: Option<CertificatePlan>)
    ensures
        r is Some <==> validity_fits(now as int),
        r matches Some(p) ==> is_plan_for(p, now as int) && p.serial_number == serial_number,
{
    if now < i64::MIN + BACKDATE_DAYS * SECONDS_PER_DAY || now > i64::MAX - VALIDITY_DAYS
        * SECONDS_PER_DAY {
        return None;
    }
    let mut key_usages = Vec::new();
    key_usages.push(KeyUsage::DigitalSignature);
    key_usages.push(KeyUsage::KeyEncipherment);
    assert(key_usages@ =~= server_key_usages());
    Some(
        CertificatePlan {
            common_name: String::from_str(COMMON_NAME),
            subject_alt_names: subject_alt_names(),
            key_usages,
            serial_number,
            not_before: now - BACKDATE_DAYS * SECONDS_PER_DAY,
            not_after: now + VALIDITY_DAYS * SECONDS_PER_DAY,
        },
    )
}

/// The system clock read into time's `OffsetDateTime`, as its
/// `unix_timestamp()`: what time's `OffsetDateTime::now_utc()` computes
/// (`UNIX_EPOCH` plus or minus the clock's distance from it), but with time's
/// `checked_add`/`checked_sub`, so that a clock outside time's year range
/// gives `None` instead of a panic. Nothing is promised of the reading but
/// its range: an `OffsetDateTime` holds a year of at most six digits either
/// side of zero (time's `MIN_YEAR`/`MAX_YEAR`, with or without its
/// `large-dates` feature), which keeps the timestamp within `10^14` seconds
/// of the epoch.
#[verifier::external_body]
fn current_unix_time() -> (t: Option<i64>)
    ensures
        t matches Some(t) ==> -CLOCK_RANGE <= t <= CLOCK_RANGE,
{
    let epoch = time::OffsetDateTime::UNIX_EPOCH;
    let now = match std::time::SystemTime::now().duration_since(std::time::UNIX_EPOCH) {
        Ok(d) => epoch.checked_add(time::Duration::try_from(d).ok()?),
        Err(e) => epoch.checked_sub(time::Duration::try_from(e.duration()).ok()?),
    };
    now.map(|t| t.unix_timestamp())
}

/// rand_core's `RngCore::try_fill_bytes` on `OsRng`, filling eight bytes read
/// as a little-endian `u64` (as `next_u64` does, but without its panic): a
/// random number from the operating system, or `None` when its generator
/// fails. Nothing is promised of the value.
#[verifier::external_body]
fn random_u64() -> Option<u64> {
    let mut bytes = [0u8; 8];
    match rand_core::RngCore::try_fill_bytes(&mut rand_core::OsRng, &mut bytes) {
        Ok(()) => Some(u64::from_le_bytes(bytes)),
        Err(_) => None,
    }
}

/// The certificate to make now, with a random serial number (rcgen can't pick
/// one without its own crypto backend), valid from a day before the clock's
/// reading until ten years after it. `None` when the clock can't be read
/// into a date or the operating system's random generator fails.
pub fn new_certificate_plan() -> (r: Option<CertificatePlan>)
    ensures
        r matches Some(p) ==> {
            &&& p.common_name@ == COMMON_NAME@
            &&& p.subject_alt_names@ == lan_subject_alt_names()
            &&& p.key_usages@ == server_key_usages()
            &&& p.not_after - p.not_before == (BACKDATE_DAYS + VALIDITY_DAYS) * SECONDS_PER_DAY
            &&& -CLOCK_RANGE <= p.not_before + BACKDATE_DAYS * SECONDS_PER_DAY <= CLOCK_RANGE
        },
{
    let now = match current_unix_time() {
        Some(now) => now,
        None => return None,
    };
    let serial_number = match random_u64() {
        Some(serial_number) => serial_number,
        None => return None,
    };
    certificate_plan(now, serial_number)
}

/// What to do at startup, by which of the two files exist.
#[derive(Debug, Clone, Copy, PartialEq, Eq, Structural)]
pub enum StartupAction {
    /// Make and persist a new certificate and key.
    GenerateNew,
    /// Read the persisted key and check it before using the pair.
    CheckExistingKey,
}

/// A new pair is made unless both the certificate and the key exist.
pub fn startup_action(cert_exists: bool, key_exists: bool) -> (r: StartupAction)
    ensures
        r == (if cert_exists && key_exists {
            StartupAction::CheckExistingKey
        } else {
            StartupAction::GenerateNew
        }),
{
    if !cert_exists || !key_exists {
        StartupAction::GenerateNew
    } else {
        StartupAction::CheckExistingKey
    }
}

/// What to do with a persisted key.
#[derive(Debug, Clone, Copy, PartialEq, Eq, Structural)]
pub enum KeyAction {
    /// Use the persisted certificate and key as they are.
    Reuse,
    /// The key is corrupt: make a new pair, rather than failing to start the
    /// HTTPS listener.
    Regenerate,
}

pub open spec fn key_action_for(key_decodes: bool) -> KeyAction {
    if key_decodes {
        KeyAction::Reuse
    } else {
        KeyAction::Regenerate
    }
}

/// A persisted key is reused exactly when it decodes as a P-256 key.
pub fn key_action(key_decodes: bool) -> (r: KeyAction)
    ensures
        r == key_action_for(key_decodes),
{
    if key_decodes {
        KeyAction::Reuse
    } else {
        KeyAction::Regenerate
    }
}

/// Whether `SigningKey::from_pkcs8_pem` of p256 accepts the text.
pub uninterp spec fn p256_pkcs8_pem_decodes(pem: Seq<char>) -> bool;

/// p256's `DecodePrivateKey::from_pkcs8_pem` for `ecdsa::SigningKey`, reduced
/// to whether it succeeded; a function of the text alone.
#[verifier::external_body]
fn pkcs8_pem_is_p256_key(pem: &str) -> (ok: bool)
    ensures
        ok == p256_pkcs8_pem_decodes(pem@),
{
    <p256::ecdsa::SigningKey as p256::pkcs8::DecodePrivateKey>::from_pkcs8_pem(pem).is_ok()
}

/// Sanity-checks a persisted key before it is handed to the TLS listener, so
/// that a corrupt file is regenerated.
pub fn check_existing_key(key_pem: &str) -> (r: KeyAction)
    ensures
        r == key_action_for(p256_pkcs8_pem_decodes(key_pem@)),
{
    key_action(pkcs8_pem_is_p256_key(key_pem))
}

/// Whether startup makes a new certificate, given which files exist and
/// whether the persisted key decodes.
pub open spec fn regenerates(cert_exists: bool, key_exists: bool, key_decodes: bool) -> bool {
    !(cert_exists && key_exists) || key_action_for(key_decodes) == KeyAction::Regenerate
}

/// A persisted pair is kept across restarts exactly when both files exist and
/// the key decodes; a missing file or a corrupt key gets a new pair.
pub proof fn lemma_persisted_pair_is_stable(cert_exists: bool, key_exists: bool, key_decodes: bool)
    ensures
        !regenerates(cert_exists, key_exists, key_decodes) <==> (cert_exists && key_exists
            && key_decodes),
{
}

} // verus!
