use chcpu::control::configure_done_message;
use chcpu::control::configure_failure_error;
use chcpu::control::cpu_configure_path;
use chcpu::control::cpu_dir_name;
use chcpu::control::cpu_online_path;
use chcpu::control::enable_already_message;
use chcpu::control::enable_done_message;
use chcpu::control::enable_failure_error;
use chcpu::control::configure_already_message;
use chcpu::control::inner_path;
use chcpu::control::plan_configure;
use chcpu::control::plan_enable;
use chcpu::control::rescan_success_message;
use chcpu::control::set_dispatch_success_message;
use chcpu::control::sysfs_root_path;
use chcpu::control::DispatchMode;
use chcpu::control::TransitionPlan;
use chcpu::errors::ChCpuError;
use chcpu::parse::parse_cpu_list;

#[test]
fn enabling_an_online_cpu_is_a_no_op() {
    let enabled = parse_cpu_list(b"0-3").unwrap();
    let r = plan_enable(Some(&enabled), true, true);
    assert_eq!(r, Ok(TransitionPlan::AlreadyDone));
    assert_eq!(enable_already_message(2, true), "CPU 2 is already enabled");
}

#[test]
fn disabling_an_offline_cpu_is_a_no_op() {
    let r = plan_enable(None, false, false);
    assert_eq!(r, Ok(TransitionPlan::AlreadyDone));
    assert_eq!(enable_already_message(2, false), "CPU 2 is already disabled");
}

#[test]
fn disabling_the_last_online_cpu_is_refused() {
    let enabled = parse_cpu_list(b"0").unwrap();
    let r = plan_enable(Some(&enabled), true, false);
    assert_eq!(r, Err(ChCpuError::OneCpuIsEnabled));
}

#[test]
fn disabling_with_other_cpus_online_proceeds() {
    let enabled = parse_cpu_list(b"0-1").unwrap();
    let r = plan_enable(Some(&enabled), true, false);
    assert_eq!(r, Ok(TransitionPlan::Proceed));
}

#[test]
fn disabling_without_a_snapshot_proceeds() {
    let r = plan_enable(None, true, false);
    assert_eq!(r, Ok(TransitionPlan::Proceed));
}

#[test]
fn enabling_an_offline_cpu_proceeds() {
    let enabled = parse_cpu_list(b"0").unwrap();
    let r = plan_enable(Some(&enabled), false, true);
    assert_eq!(r, Ok(TransitionPlan::Proceed));
}

#[test]
fn deconfiguring_an_online_cpu_is_refused() {
    let enabled = parse_cpu_list(b"0-3").unwrap();
    let r = plan_configure(Some(&enabled), 2, true, false);
    assert_eq!(r, Err(ChCpuError::CpuIsEnabled(2)));
}

#[test]
fn deconfiguring_an_offline_cpu_proceeds() {
    // the same CPU, once taken offline, may be deconfigured
    let mut enabled = parse_cpu_list(b"0-3").unwrap();
    enabled.remove_index(2);
    let r = plan_configure(Some(&enabled), 2, true, false);
    assert_eq!(r, Ok(TransitionPlan::Proceed));
}

#[test]
fn configuring_is_never_refused_by_the_snapshot() {
    let enabled = parse_cpu_list(b"0-3").unwrap();
    let r = plan_configure(Some(&enabled), 2, false, true);
    assert_eq!(r, Ok(TransitionPlan::Proceed));
}

#[test]
fn reconfiguring_is_a_no_op() {
    let r = plan_configure(None, 2, true, true);
    assert_eq!(r, Ok(TransitionPlan::AlreadyDone));
    assert_eq!(configure_already_message(2, true), "CPU 2 is already configured");
    assert_eq!(configure_already_message(2, false), "CPU 2 is already deconfigured");
}

#[test]
fn transition_confirmations() {
    assert_eq!(enable_done_message(0, true), "CPU 0 enabled");
    assert_eq!(enable_done_message(10, false), "CPU 10 disabled");
    assert_eq!(configure_done_message(3, true), "CPU 3 configured");
    assert_eq!(configure_done_message(3, false), "CPU 3 deconfigured");
}

#[test]
fn enable_failure_gets_the_deconfigured_hint() {
    let err = ChCpuError::io1(
        "failed to write file".to_string(),
        "/sys/devices/system/cpu/cpu2/online".to_string(),
        "Device or resource busy".to_string(),
    );
    let wrapped = enable_failure_error(err, 2, true, &Ok(0));
    assert_eq!(
        wrapped.message(),
        "CPU 2 enable failed (CPU is deconfigured) \
         '/sys/devices/system/cpu/cpu2/online': Device or resource busy"
    );
}

#[test]
fn enable_failure_without_hint() {
    let err = ChCpuError::io0("failed to write file".to_string(), "boom".to_string());
    let wrapped = enable_failure_error(err, 2, true, &Ok(1));
    assert_eq!(wrapped.message(), "CPU 2 enable failed: boom");
}

#[test]
fn disable_failure_never_gets_the_hint() {
    let err = ChCpuError::io0("failed to write file".to_string(), "boom".to_string());
    let wrapped = enable_failure_error(err, 7, false, &Ok(0));
    assert_eq!(wrapped.message(), "CPU 7 disable failed: boom");
}

#[test]
fn configure_failure_description() {
    let err = ChCpuError::io0("failed to write file".to_string(), "boom".to_string());
    assert_eq!(
        configure_failure_error(err.clone(), 4, true).message(),
        "CPU 4 configure failed: boom"
    );
    assert_eq!(
        configure_failure_error(err, 4, false).message(),
        "CPU 4 deconfigure failed: boom"
    );
}

#[test]
fn non_io_errors_pass_through_unchanged() {
    let err = ChCpuError::CpuNotHotPluggable(2);
    assert_eq!(
        enable_failure_error(err, 2, true, &Ok(0)),
        ChCpuError::CpuNotHotPluggable(2)
    );
    let err = ChCpuError::CpuNotConfigurable(2);
    assert_eq!(configure_failure_error(err, 2, false), ChCpuError::CpuNotConfigurable(2));
}

#[test]
fn dispatch_mode_values() {
    assert_eq!(DispatchMode::Horizontal.value(), 0);
    assert_eq!(DispatchMode::Vertical.value(), 1);
    assert_eq!(DispatchMode::Horizontal.attr_text(), "0");
    assert_eq!(DispatchMode::Vertical.attr_text(), "1");
}

#[test]
fn one_shot_messages() {
    assert_eq!(
        set_dispatch_success_message(DispatchMode::Horizontal),
        "Successfully set horizontal dispatching mode"
    );
    assert_eq!(
        set_dispatch_success_message(DispatchMode::Vertical),
        "Successfully set vertical dispatching mode"
    );
    assert_eq!(rescan_success_message(), "Triggered rescan of CPUs");
}

#[test]
fn control_paths() {
    assert_eq!(sysfs_root_path(), "/sys/devices/system/cpu");
    assert_eq!(inner_path("online"), "/sys/devices/system/cpu/online");
    assert_eq!(cpu_dir_name(7), "cpu7");
    assert_eq!(cpu_online_path(0), "cpu0/online");
    assert_eq!(cpu_configure_path(12), "cpu12/configure");
}
