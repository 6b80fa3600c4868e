use chcpu::errors::ChCpuError;
use chcpu::textnum::usize_to_string;

#[test]
fn decimal_rendering() {
    assert_eq!(usize_to_string(0), "0");
    assert_eq!(usize_to_string(7), "7");
    assert_eq!(usize_to_string(12345), "12345");
    assert_eq!(usize_to_string(usize::MAX), format!("{}", usize::MAX));
}

#[test]
fn invariant_error_messages() {
    assert_eq!(ChCpuError::CpuIsEnabled(3).message(), "CPU 3 is enabled");
    assert_eq!(ChCpuError::OneCpuIsEnabled.message(), "only one CPU is enabled");
}

#[test]
fn capability_error_messages() {
    assert_eq!(ChCpuError::CpuNotConfigurable(4).message(), "CPU 4 is not configurable");
    assert_eq!(ChCpuError::CpuNotHotPluggable(0).message(), "CPU 0 is not hot pluggable");
    assert_eq!(ChCpuError::InvalidCpuIndex(99).message(), "CPU 99 does not exist");
    assert_eq!(
        ChCpuError::CpuRescanUnsupported.message(),
        "this system does not support rescanning of CPUs"
    );
    assert_eq!(
        ChCpuError::SetCpuDispatchUnsupported.message(),
        "this system does not support setting the dispatching mode of CPUs"
    );
}

#[test]
fn specification_error_messages() {
    assert_eq!(
        ChCpuError::CpuSpecFirstAfterLast.message(),
        "first element of CPU list range is greater than its last element"
    );
    assert_eq!(
        ChCpuError::CpuSpecNotPositiveInteger.message(),
        "CPU list element is not a positive number"
    );
    assert_eq!(ChCpuError::EmptyCpuList.message(), "CPU list is empty");
}

#[test]
fn io_error_messages() {
    let e = ChCpuError::io0("write standard output".to_string(), "broken pipe".to_string());
    assert_eq!(e.message(), "write standard output: broken pipe");
    let e = ChCpuError::io1(
        "failed to open".to_string(),
        "/sys/devices/system/cpu".to_string(),
        "Permission denied".to_string(),
    );
    assert_eq!(e.message(), "failed to open '/sys/devices/system/cpu': Permission denied");
}

#[test]
fn not_integer_message() {
    let e = ChCpuError::NotInteger("o n".to_string());
    assert_eq!(e.message(), "data is not an integer 'o n'");
}

#[test]
fn with_io_message_replaces_only_io_descriptions() {
    let e = ChCpuError::io0("old words".to_string(), "boom".to_string());
    assert_eq!(
        e.with_io_message("new words".to_string()),
        ChCpuError::IO0("new words".to_string(), "boom".to_string())
    );
    let e = ChCpuError::io1("old words".to_string(), "p".to_string(), "boom".to_string());
    assert_eq!(
        e.with_io_message("new words".to_string()),
        ChCpuError::IO1("new words".to_string(), "p".to_string(), "boom".to_string())
    );
    let e = ChCpuError::OneCpuIsEnabled;
    assert_eq!(e.with_io_message("new words".to_string()), ChCpuError::OneCpuIsEnabled);
}
