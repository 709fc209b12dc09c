use ms45_core::{
    DmeIdentity, FlashBackend, FlashError, FlashPlan, FlashProgress, FlashSegment, MemoryRegion,
    ProgressFn, SecurityLevel, UnsupportedLiveBackend,
};
use std::collections::BTreeMap;

#[derive(Default)]
struct RecordingBackend {
    operations: Vec<String>,
    fail_write_at: Option<u32>,
    corrupt_read_at: Option<u32>,
    memory: BTreeMap<u32, u8>,
}

impl FlashBackend for RecordingBackend {
    fn identify(&mut self) -> Result<DmeIdentity, FlashError> {
        self.operations.push("identify".into());
        Ok(DmeIdentity {
            vin: "TESTVIN".into(),
            hardware_reference: "HW-45".into(),
            software_reference: "SW-1".into(),
            programming_status: "ready".into(),
            diag_protocol: "test".into(),
        })
    }
    fn request_security_access(&mut self, _: SecurityLevel) -> Result<(), FlashError> {
        self.operations.push("security".into());
        Ok(())
    }
    fn read_memory<P: FnMut(FlashProgress)>(
        &mut self,
        _: MemoryRegion,
        start: u32,
        len: usize,
        _: &mut P,
    ) -> Result<Vec<u8>, FlashError> {
        self.operations.push(format!("read:{start:x}:{len}"));
        let mut data = (0..len)
            .map(|offset| self.memory[&(start + offset as u32)])
            .collect::<Vec<_>>();
        if self.corrupt_read_at == Some(start) {
            data[0] ^= 1;
        }
        Ok(data)
    }
    fn erase(&mut self, start: u32, len: usize) -> Result<(), FlashError> {
        self.operations.push(format!("erase:{start:x}:{len}"));
        Ok(())
    }
    fn write_block<P: FnMut(FlashProgress)>(
        &mut self,
        start: u32,
        data: &[u8],
        _: &mut P,
    ) -> Result<(), FlashError> {
        self.operations
            .push(format!("write:{start:x}:{}", data.len()));
        if self.fail_write_at == Some(start) {
            return Err(FlashError::Backend("injected write failure".into()));
        }
        for (offset, byte) in data.iter().enumerate() {
            self.memory.insert(start + offset as u32, *byte);
        }
        Ok(())
    }
    fn check_signature(&mut self, program: bool) -> Result<(), FlashError> {
        self.operations.push(format!("signature:{program}"));
        Ok(())
    }
    fn reset(&mut self) -> Result<(), FlashError> {
        self.operations.push("reset".into());
        Ok(())
    }
}

fn plan() -> FlashPlan {
    FlashPlan::new(
        "HW-45".to_string(),
        Some("SW-1".into()),
        vec![FlashSegment {
            region: MemoryRegion::ExternalFlash,
            start: 0x1000,
            data: vec![1; 10],
        }],
        4,
        false,
    )
    .unwrap()
}

#[test]
fn executes_validated_plan_in_fail_safe_order() {
    let mut backend = RecordingBackend::default();
    let mut progress = Vec::new();
    let receipt = plan()
        .execute(&mut backend, &mut ProgressFn::new(|value| progress.push(value)))
        .unwrap();
    assert_eq!(receipt.bytes_written, 10);
    assert_eq!(
        progress.last(),
        Some(&FlashProgress {
            completed: 10,
            total: 10
        })
    );
    assert_eq!(
        backend.operations,
        vec![
            "identify",
            "security",
            "erase:1000:10",
            "write:1000:4",
            "read:1000:4",
            "write:1004:4",
            "read:1004:4",
            "write:1008:2",
            "read:1008:2",
            "signature:false",
            "reset"
        ]
    );
}

#[test]
fn rejects_overlap_before_contacting_backend() {
    let error = FlashPlan::new(
        "HW".to_string(),
        None,
        vec![
            FlashSegment {
                region: MemoryRegion::ExternalFlash,
                start: 10,
                data: vec![0; 5],
            },
            FlashSegment {
                region: MemoryRegion::ExternalFlash,
                start: 14,
                data: vec![0; 2],
            },
        ],
        4,
        false,
    )
    .unwrap_err();
    assert!(matches!(error, FlashError::InvalidPlan(_)));
}

#[test]
fn identity_mismatch_prevents_unlock_and_erase() {
    let mut backend = RecordingBackend::default();
    let mismatched = FlashPlan::new(
        "OTHER".to_string(),
        None,
        vec![FlashSegment {
            region: MemoryRegion::ExternalFlash,
            start: 0,
            data: vec![1],
        }],
        1,
        false,
    )
    .unwrap();
    assert!(matches!(
        mismatched.execute(&mut backend, &mut ProgressFn::new(|_| {})),
        Err(FlashError::IdentityMismatch(_))
    ));
    assert_eq!(backend.operations, vec!["identify"]);
}

#[test]
fn write_failure_never_checks_signature_or_resets() {
    let mut backend = RecordingBackend {
        fail_write_at: Some(0x1004),
        ..Default::default()
    };
    assert!(plan().execute(&mut backend, &mut ProgressFn::new(|_| {})).is_err());
    assert!(!backend
        .operations
        .iter()
        .any(|operation| operation.starts_with("signature") || operation == "reset"));
}

#[test]
fn readback_mismatch_stops_before_next_write_and_reset() {
    let mut backend = RecordingBackend {
        corrupt_read_at: Some(0x1004),
        ..Default::default()
    };
    assert!(matches!(
        plan().execute(&mut backend, &mut ProgressFn::new(|_| {})),
        Err(FlashError::ReadbackMismatch { address: 0x1004 })
    ));
    assert!(!backend
        .operations
        .iter()
        .any(|operation| operation == "write:1008:2" || operation == "reset"));
}

#[test]
fn vin_pin_stops_before_security_access() {
    let mut backend = RecordingBackend::default();
    let pinned = plan().with_expected_vin("DIFFERENTVIN".to_string()).unwrap();
    assert!(matches!(
        pinned.execute(&mut backend, &mut ProgressFn::new(|_| {})),
        Err(FlashError::IdentityMismatch(_))
    ));
    assert_eq!(backend.operations, vec!["identify"]);
}

fn segment(region: MemoryRegion, start: u32, len: usize) -> FlashSegment {
    FlashSegment {
        region,
        start,
        data: vec![7; len],
    }
}

fn new_plan(hw: &str, segments: Vec<FlashSegment>, block_size: usize) -> Result<FlashPlan, FlashError> {
    FlashPlan::new(hw.to_string(), None, segments, block_size, true)
}

#[test]
fn plan_rules_are_checked() {
    let ok = || vec![segment(MemoryRegion::ExternalFlash, 0, 4)];
    assert!(new_plan("HW", ok(), 1).is_ok());
    assert!(new_plan("HW", ok(), 0x1000).is_ok());
    assert!(matches!(new_plan(" \t", ok(), 4), Err(FlashError::InvalidPlan(_))));
    assert!(matches!(new_plan("\u{3000}", ok(), 4), Err(FlashError::InvalidPlan(_))));
    assert!(matches!(new_plan("HW", ok(), 0), Err(FlashError::InvalidPlan(_))));
    assert!(matches!(new_plan("HW", ok(), 0x1001), Err(FlashError::InvalidPlan(_))));
    assert!(matches!(new_plan("HW", vec![], 4), Err(FlashError::InvalidPlan(_))));
    assert!(matches!(
        new_plan("HW", vec![segment(MemoryRegion::ExternalFlash, 0, 0)], 4),
        Err(FlashError::InvalidPlan(_))
    ));
    assert!(matches!(
        new_plan("HW", vec![segment(MemoryRegion::ExternalFlash, 0xffff_fffe, 4)], 4),
        Err(FlashError::InvalidPlan(_))
    ));
    // the same addresses in different regions do not collide
    assert!(new_plan(
        "HW",
        vec![
            segment(MemoryRegion::ExternalFlash, 0, 8),
            segment(MemoryRegion::InternalMpc, 4, 8)
        ],
        4
    )
    .is_ok());
    // adjacent ranges do not collide
    assert!(new_plan(
        "HW",
        vec![
            segment(MemoryRegion::ExternalFlash, 0, 8),
            segment(MemoryRegion::ExternalFlash, 8, 8)
        ],
        4
    )
    .is_ok());
}

#[test]
fn plan_error_messages_name_the_segment() {
    match new_plan("HW", vec![segment(MemoryRegion::ExternalFlash, 0, 0)], 4) {
        Err(FlashError::InvalidPlan(message)) => assert_eq!(message, "segment 0 has no payload"),
        _ => panic!("expected an invalid plan"),
    }
    match new_plan(
        "HW",
        vec![
            segment(MemoryRegion::ExternalFlash, 10, 5),
            segment(MemoryRegion::ExternalFlash, 14, 2),
        ],
        4,
    ) {
        Err(FlashError::InvalidPlan(message)) => assert_eq!(message, "segments 0 and 1 overlap"),
        _ => panic!("expected an invalid plan"),
    }
}

#[test]
fn blank_vin_is_refused() {
    assert!(matches!(
        plan().with_expected_vin("   ".to_string()),
        Err(FlashError::InvalidPlan(_))
    ));
}

#[test]
fn matching_vin_and_two_segments_complete() {
    let mut backend = RecordingBackend::default();
    let plan = FlashPlan::new(
        "HW-45".to_string(),
        None,
        vec![
            segment(MemoryRegion::ExternalFlash, 0x10, 3),
            segment(MemoryRegion::InternalMpc, 0x40, 2),
        ],
        2,
        true,
    )
    .unwrap()
    .with_expected_vin("TESTVIN".to_string())
    .unwrap();
    let mut progress = Vec::new();
    let receipt = plan
        .execute(&mut backend, &mut ProgressFn::new(|value| progress.push(value)))
        .unwrap();
    assert_eq!(receipt.segments_written, 2);
    assert_eq!(receipt.bytes_written, 5);
    assert_eq!(receipt.identity.vin, "TESTVIN");
    assert_eq!(
        progress,
        vec![
            FlashProgress { completed: 2, total: 5 },
            FlashProgress { completed: 3, total: 5 },
            FlashProgress { completed: 5, total: 5 },
        ]
    );
    assert_eq!(
        backend.operations,
        vec![
            "identify",
            "security",
            "erase:10:3",
            "write:10:2",
            "read:10:2",
            "write:12:1",
            "read:12:1",
            "erase:40:2",
            "write:40:2",
            "read:40:2",
            "signature:true",
            "reset"
        ]
    );
}

#[test]
fn software_reference_mismatch_is_reported() {
    let mut backend = RecordingBackend::default();
    let plan = FlashPlan::new(
        "HW-45".to_string(),
        Some("SW-2".to_string()),
        vec![segment(MemoryRegion::ExternalFlash, 0, 1)],
        1,
        false,
    )
    .unwrap();
    match plan.execute(&mut backend, &mut ProgressFn::new(|_| {})) {
        Err(FlashError::IdentityMismatch(message)) => {
            assert_eq!(message, "software reference expected SW-2, found SW-1")
        }
        _ => panic!("expected an identity mismatch"),
    }
    assert_eq!(backend.operations, vec!["identify"]);
}

#[test]
fn unsupported_backend_fails_at_identify() {
    let mut backend = UnsupportedLiveBackend::new();
    assert!(matches!(
        plan().execute(&mut backend, &mut ProgressFn::new(|_| {})),
        Err(FlashError::UnsupportedBackend)
    ));
    let mut backend = UnsupportedLiveBackend::default();
    assert!(matches!(backend.reset(), Err(FlashError::UnsupportedBackend)));
}

fn plan_message(result: Result<FlashPlan, FlashError>) -> String {
    match result {
        Err(FlashError::InvalidPlan(message)) => message,
        _ => panic!("expected an invalid plan"),
    }
}

#[test]
fn plan_messages_follow_the_order_of_the_checks() {
    let ok = || vec![segment(MemoryRegion::ExternalFlash, 0, 4)];
    assert_eq!(plan_message(new_plan(" ", ok(), 0)), "expected hardware reference is required");
    assert_eq!(
        plan_message(new_plan("HW", vec![], 0)),
        "block size must be between 1 and 4096 bytes"
    );
    assert_eq!(plan_message(new_plan("HW", vec![], 4)), "at least one flash segment is required");
    assert_eq!(
        plan_message(new_plan(
            "HW",
            vec![
                segment(MemoryRegion::ExternalFlash, 0, 4),
                segment(MemoryRegion::ExternalFlash, 0xffff_fffe, 4)
            ],
            4
        )),
        "segment 1 address range overflows"
    );
    // an empty later segment inside an earlier one is reported as an overlap first
    assert_eq!(
        plan_message(new_plan(
            "HW",
            vec![
                segment(MemoryRegion::ExternalFlash, 0, 8),
                segment(MemoryRegion::ExternalFlash, 4, 0)
            ],
            4
        )),
        "segments 0 and 1 overlap"
    );
    assert_eq!(
        plan_message(plan().with_expected_vin(" ".to_string())),
        "expected VIN must not be blank"
    );
}

#[test]
fn hardware_reference_mismatch_is_reported_first() {
    let mut backend = RecordingBackend::default();
    let plan = FlashPlan::new(
        "HW-46".to_string(),
        Some("SW-2".to_string()),
        vec![segment(MemoryRegion::ExternalFlash, 0, 1)],
        1,
        false,
    )
    .unwrap()
    .with_expected_vin("OTHERVIN".to_string())
    .unwrap();
    match plan.execute(&mut backend, &mut ProgressFn::new(|_| {})) {
        Err(FlashError::IdentityMismatch(message)) => {
            assert_eq!(message, "hardware reference expected HW-46, found HW-45")
        }
        _ => panic!("expected an identity mismatch"),
    }
}

#[test]
fn progress_reports_each_verified_block() {
    let mut backend = RecordingBackend::default();
    let mut progress = Vec::new();
    plan()
        .execute(&mut backend, &mut ProgressFn::new(|value| progress.push(value)))
        .unwrap();
    let completed: Vec<usize> = progress.iter().map(|p| p.completed).collect();
    assert_eq!(completed, vec![4, 8, 10]);
    assert!(progress.iter().all(|p| p.total == 10));
}

#[test]
fn progress_stops_at_the_mismatching_block() {
    let mut backend = RecordingBackend {
        corrupt_read_at: Some(0x1004),
        ..Default::default()
    };
    let mut progress = Vec::new();
    assert!(plan()
        .execute(&mut backend, &mut ProgressFn::new(|value| progress.push(value)))
        .is_err());
    assert_eq!(progress, vec![FlashProgress { completed: 4, total: 10 }]);
}

#[test]
fn identity_mismatch_reports_no_progress() {
    let mut backend = RecordingBackend::default();
    let mut progress = Vec::new();
    let plan = FlashPlan::new(
        "OTHER".to_string(),
        None,
        vec![segment(MemoryRegion::ExternalFlash, 0, 4)],
        4,
        false,
    )
    .unwrap();
    assert!(plan
        .execute(&mut backend, &mut ProgressFn::new(|value| progress.push(value)))
        .is_err());
    assert!(progress.is_empty());
}

#[test]
fn cloned_plan_is_equal_and_runs_the_same() {
    let approved = plan().with_expected_vin("TESTVIN".to_string()).unwrap();
    let copy = approved.clone();
    assert_eq!(copy, approved);
    let mut backend = RecordingBackend::default();
    assert!(copy.execute(&mut backend, &mut ProgressFn::new(|_| {})).is_ok());
}
