//! The string-valued device selector and the error type.

use tsdistances::distances::{parse_device, Device, DistanceError};

#[test]
fn parse_device_cpu() {
    assert!(matches!(parse_device("cpu"), Ok(Device::Cpu)));
}

#[test]
fn parse_device_gpu() {
    assert!(matches!(parse_device("gpu"), Ok(Device::Gpu)));
}

#[test]
fn parse_device_rejects_unknown() {
    for bad in ["tpu", "", "CPU", "gpu ", "cuda"] {
        match parse_device(bad) {
            Err(DistanceError::InvalidParameter(msg)) => {
                assert_eq!(msg, "Device must be either 'cpu' or 'gpu'");
            }
            other => panic!("device {bad:?} must be rejected, got {other:?}"),
        }
    }
}

#[test]
fn error_variants_carry_messages() {
    let e = DistanceError::ComputationError("backend failed".to_string());
    assert!(matches!(e, DistanceError::ComputationError(m) if m == "backend failed"));
}
