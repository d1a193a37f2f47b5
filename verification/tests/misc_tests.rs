use std::collections::HashMap;

use ferrite::{
    choose_download_method, effective_cap, fits_area, insert_fresh, insert_randomized,
    CompressPlan, DownloadMethod, Encoding, GenericError, Keyed, TargetArch, TargetSystem,
    ToGenericError, ToKeyed,
};

#[test]
fn test_keyed_accessors() {
    let keyed = Keyed::new("payload", 7u32);
    assert_eq!(*keyed.value(), "payload");
    assert_eq!(*keyed.key(), 7);
    let via_trait = "other".with_key(9u64);
    assert_eq!(*via_trait.value(), "other");
    assert_eq!(*via_trait.key(), 9);
}

#[test]
fn test_generic_error_message() {
    let err = "boom".to_error();
    assert_eq!(err.message().as_str(), "boom");
    let err2 = String::from("broken pipe").to_error();
    assert_eq!(err2.message().as_str(), "broken pipe");
    let err3 = GenericError::new(String::from("direct"));
    assert_eq!(err3.message().as_str(), "direct");
}

#[test]
fn test_insert_fresh() {
    let mut m: HashMap<u64, &str> = HashMap::new();
    assert_eq!(insert_fresh(&mut m, 5, "five"), None);
    assert_eq!(m.get(&5), Some(&"five"));
    assert_eq!(insert_fresh(&mut m, 5, "again"), Some("again"));
    assert_eq!(m.get(&5), Some(&"five"));
    assert_eq!(m.len(), 1);
}

#[test]
fn test_insert_randomized() {
    let mut m: HashMap<u64, u32> = HashMap::new();
    let mut inserted = 0usize;
    while inserted < 8 {
        if let Ok(key) = insert_randomized(&mut m, 1) {
            assert!(key < u64::MAX);
            assert_eq!(m.get(&key), Some(&1));
            inserted += 1;
        }
    }
    assert_eq!(m.len(), 8);
}

#[test]
fn test_compress_plan_schedule() {
    let mut plan = CompressPlan::new(true);
    let mut attempts = Vec::new();
    while let Some(attempt) = plan.next_attempt() {
        attempts.push(attempt);
    }
    let mut expected = vec![Encoding::Png];
    for level in 0..=9u8 {
        expected.push(Encoding::Jpeg(100 - 5 * level));
    }
    assert_eq!(attempts, expected);

    let mut plan = CompressPlan::new(false);
    let mut attempts = Vec::new();
    while let Some(attempt) = plan.next_attempt() {
        attempts.push(attempt);
    }
    assert_eq!(attempts, expected[1..].to_vec());
}

#[test]
fn test_compress_caps() {
    assert_eq!(effective_cap(100, None), 100);
    assert_eq!(effective_cap(100, Some(70)), 70);
    assert_eq!(effective_cap(100, Some(130)), 100);
    assert!(fits_area(100, 100, 10_000));
    assert!(!fits_area(101, 100, 10_000));
    assert!(fits_area(u32::MAX, 0, 0));
}

#[test]
fn test_choose_download_method() {
    assert_eq!(choose_download_method(true, true), Some(DownloadMethod::Curl));
    assert_eq!(choose_download_method(true, false), Some(DownloadMethod::Curl));
    assert_eq!(
        choose_download_method(false, true),
        Some(DownloadMethod::LibraryClient)
    );
    assert_eq!(choose_download_method(false, false), None);
}

#[test]
fn test_target_enums() {
    assert_eq!(TargetArch::X86_64, TargetArch::X86_64);
    assert_ne!(TargetArch::Arm, TargetArch::AArch64);
    assert!(TargetSystem::Linux < TargetSystem::MacOS);
    assert_eq!(format!("{:?}", TargetSystem::Linux), "Linux");
}
