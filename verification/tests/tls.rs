use p256::pkcs8::{EncodePrivateKey, LineEnding};
use rayhunter::tls::{
    certificate_plan, check_existing_key, key_action, new_certificate_plan, startup_action,
    subject_alt_names, KeyAction, KeyUsage, StartupAction, SubjectAltName, CERT_FILENAME,
    KEY_FILENAME,
};

#[test]
fn subject_alt_names_cover_the_lan_and_loopback() {
    assert_eq!(
        subject_alt_names(),
        vec![
            SubjectAltName::Ipv4(192, 168, 0, 1),
            SubjectAltName::Ipv4(192, 168, 1, 1),
            SubjectAltName::Ipv4(127, 0, 0, 1),
            SubjectAltName::Ipv6(0, 0, 0, 0, 0, 0, 0, 1),
        ]
    );
}

#[test]
fn plan_is_backdated_a_day_and_valid_ten_years() {
    let plan = certificate_plan(1_700_000_000, 42).unwrap();
    assert_eq!(plan.common_name, "Rayhunter");
    assert_eq!(plan.serial_number, 42);
    assert_eq!(plan.not_before, 1_700_000_000 - 86_400);
    assert_eq!(plan.not_after, 1_700_000_000 + 3650 * 86_400);
    assert_eq!(plan.key_usages, vec![KeyUsage::DigitalSignature, KeyUsage::KeyEncipherment]);
    assert_eq!(plan.subject_alt_names, subject_alt_names());
    assert!(certificate_plan(i64::MAX, 1).is_none());
    assert!(certificate_plan(i64::MIN, 1).is_none());
    assert!(certificate_plan(i64::MIN + 86_400, 1).is_some());
}

#[test]
fn a_new_plan_uses_the_clock() {
    let plan = new_certificate_plan().unwrap();
    let now = time::OffsetDateTime::now_utc().unix_timestamp();
    assert!((plan.not_before + 86_400 - now).abs() < 60);
    assert_eq!(plan.not_after - plan.not_before, 3651 * 86_400);
}

#[test]
fn only_a_complete_pair_is_checked() {
    assert_eq!(startup_action(true, true), StartupAction::CheckExistingKey);
    assert_eq!(startup_action(true, false), StartupAction::GenerateNew);
    assert_eq!(startup_action(false, true), StartupAction::GenerateNew);
    assert_eq!(startup_action(false, false), StartupAction::GenerateNew);
    assert_eq!(key_action(true), KeyAction::Reuse);
    assert_eq!(key_action(false), KeyAction::Regenerate);
    assert_eq!(CERT_FILENAME, "cert.pem");
    assert_eq!(KEY_FILENAME, "key.pem");
}

#[test]
fn a_valid_key_is_reused_and_a_corrupt_one_regenerated() {
    assert_eq!(check_existing_key("not a key"), KeyAction::Regenerate);
    assert_eq!(check_existing_key(""), KeyAction::Regenerate);
    let key = p256::ecdsa::SigningKey::random(&mut rand_core::OsRng);
    let pem = key.to_pkcs8_pem(LineEnding::LF).unwrap();
    assert_eq!(check_existing_key(&pem), KeyAction::Reuse);
}
