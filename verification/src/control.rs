//! The per-CPU state-transition rules: when a requested enable/disable or
//! configure/deconfigure is a no-op, when it is refused by an invariant, and
//! the exact text of every confirmation, failure and path the tool uses.

use vstd::prelude::*;
use crate::cpulist::CpuList;
use crate::errors::ChCpuError;
use crate::textnum::dec_seq;
use crate::textnum::push_dec;

verus! {

/// The workload dispatch policy: spread across all CPUs, or concentrated on
/// few.
#[derive(Debug, Clone, Copy, PartialEq, Eq, Structural)]
pub enum DispatchMode {
    Horizontal,
    Vertical,
}

impl DispatchMode {
    /// The numeric encoding the kernel attribute takes.
    pub open spec fn value_spec(self) -> u8 {
        match self {
            DispatchMode::Horizontal => 0,
            DispatchMode::Vertical => 1,
        }
    }

    pub fn value(&self) -> (v: u8)
        ensures
            v == self.value_spec(),
    {
        match self {
            DispatchMode::Horizontal => 0,
            DispatchMode::Vertical => 1,
        }
    }

    /// The mode's name, as printed in the confirmation message.
    pub open spec fn name_view(self) -> Seq<char> {
        match self {
            DispatchMode::Horizontal => "horizontal"@,
            DispatchMode::Vertical => "vertical"@,
        }
    }

    /// The text written to the dispatching attribute.
    pub fn attr_text(&self) -> (r: String)
        ensures
            r@ == dec_seq(self.value_spec() as int),
    {
        let mut s = String::new();
        push_dec(&mut s, self.value() as usize);
        proof {
            assert(Seq::<char>::empty() + dec_seq(self.value_spec() as int) =~= dec_seq(
                self.value_spec() as int,
            ));
        }
        s
    }
}

/// Whether a set holds at most one member.
pub open spec fn at_most_one(s: Set<int>) -> bool {
    forall|p: int, q: int| s.contains(p) && s.contains(q) ==> p == q
}

/// What remains to be done for one state transition, once the current state
/// is known and no invariant stands in the way.
#[derive(Debug, Clone, Copy, PartialEq, Eq, Structural)]
pub enum TransitionPlan {
    /// The CPU already is in the requested state: confirm and do nothing.
    AlreadyDone,
    /// Write the new state to the control attribute.
    Proceed,
}

/// Decides one enable/disable transition from the current online state.
///
/// A request matching the current state is a no-op, not an error. Disabling
/// is refused outright when a snapshot of the online CPUs is at hand and
/// holds at most one member: the last online CPU may never be taken offline.
/// Without a snapshot the check is skipped.
pub fn plan_enable(enabled: Option<&CpuList>, online: bool, enable: bool) -> (r: Result<
    TransitionPlan,
    ChCpuError,
>)
    requires
        enabled matches Some(l) ==> l.wf(),
    ensures
        online == enable ==> r == Ok::<TransitionPlan, ChCpuError>(TransitionPlan::AlreadyDone),
        online != enable && enable ==> r == Ok::<TransitionPlan, ChCpuError>(
            TransitionPlan::Proceed,
        ),
        online != enable && !enable ==> match enabled {
            Some(l) => if at_most_one(l.cov()) {
                r == Err::<TransitionPlan, ChCpuError>(ChCpuError::OneCpuIsEnabled)
            } else {
                r == Ok::<TransitionPlan, ChCpuError>(TransitionPlan::Proceed)
            },
            None => r == Ok::<TransitionPlan, ChCpuError>(TransitionPlan::Proceed),
        },
{
    if enable == online {
        return Ok(TransitionPlan::AlreadyDone);
    }
    if !enable {
        if let Some(l) = enabled {
            if l.has_at_most_one() {
                return Err(ChCpuError::OneCpuIsEnabled);
            }
        }
    }
    Ok(TransitionPlan::Proceed)
}

/// Decides one configure/deconfigure transition from the current configured
/// state.
///
/// A request matching the current state is a no-op. Deconfiguring a CPU that
/// the online snapshot holds is refused: a CPU must be taken offline before
/// it can be deconfigured. Without a snapshot the check is skipped.
pub fn plan_configure(
    enabled: Option<&CpuList>,
    cpu_index: usize,
    previous: bool,
    configure: bool,
) -> (r: Result<TransitionPlan, ChCpuError>)
    requires
        enabled matches Some(l) ==> l.wf(),
    ensures
        previous == configure ==> r == Ok::<TransitionPlan, ChCpuError>(
            TransitionPlan::AlreadyDone,
        ),
        previous != configure && !configure && (enabled matches Some(l) && l.cov().contains(
            cpu_index as int,
        )) ==> r == Err::<TransitionPlan, ChCpuError>(ChCpuError::CpuIsEnabled(cpu_index)),
        previous != configure && (configure || match enabled {
            Some(l) => !l.cov().contains(cpu_index as int),
            None => true,
        }) ==> r == Ok::<TransitionPlan, ChCpuError>(TransitionPlan::Proceed),
{
    if configure == previous {
        return Ok(TransitionPlan::AlreadyDone);
    }
    if !configure {
        if let Some(l) = enabled {
            if l.contains_index(cpu_index) {
                return Err(ChCpuError::CpuIsEnabled(cpu_index));
            }
        }
    }
    Ok(TransitionPlan::Proceed)
}

/// The state name used in enable/disable confirmations.
pub open spec fn enable_state_view(enable: bool) -> Seq<char> {
    if enable {
        "enabled"@
    } else {
        "disabled"@
    }
}

/// The state name used in configure/deconfigure confirmations.
pub open spec fn configure_state_view(configure: bool) -> Seq<char> {
    if configure {
        "configured"@
    } else {
        "deconfigured"@
    }
}

/// The no-op confirmation for an enable/disable request.
pub fn enable_already_message(cpu_index: usize, enable: bool) -> (r: String)
    ensures
        r@ == "CPU "@ + dec_seq(cpu_index as int) + " is already "@ + enable_state_view(enable),
{
    let mut s = String::new();
    s.append("CPU ");
    push_dec(&mut s, cpu_index);
    s.append(" is already ");
    if enable {
        s.append("enabled");
    } else {
        s.append("disabled");
    }
    proof {
        assert(s@ =~= "CPU "@ + dec_seq(cpu_index as int) + " is already "@ + enable_state_view(
            enable,
        ));
    }
    s
}

/// The success confirmation for an enable/disable transition.
pub fn enable_done_message(cpu_index: usize, enable: bool) -> (r: String)
    ensures
        r@ == "CPU "@ + dec_seq(cpu_index as int) + " "@ + enable_state_view(enable),
{
    let mut s = String::new();
    s.append("CPU ");
    push_dec(&mut s, cpu_index);
    s.append(" ");
    if enable {
        s.append("enabled");
    } else {
        s.append("disabled");
    }
    proof {
        assert(s@ =~= "CPU "@ + dec_seq(cpu_index as int) + " "@ + enable_state_view(enable));
    }
    s
}

/// The no-op confirmation for a configure/deconfigure request.
pub fn configure_already_message(cpu_index: usize, configure: bool) -> (r: String)
    ensures
        r@ == "CPU "@ + dec_seq(cpu_index as int) + " is already "@ + configure_state_view(
            configure,
        ),
{
    let mut s = String::new();
    s.append("CPU ");
    push_dec(&mut s, cpu_index);
    s.append(" is already ");
    if configure {
        s.append("configured");
    } else {
        s.append("deconfigured");
    }
    proof {
        assert(s@ =~= "CPU "@ + dec_seq(cpu_index as int) + " is already "@ + configure_state_view(
            configure,
        ));
    }
    s
}

/// The success confirmation for a configure/deconfigure transition.
pub fn configure_done_message(cpu_index: usize, configure: bool) -> (r: String)
    ensures
        r@ == "CPU "@ + dec_seq(cpu_index as int) + " "@ + configure_state_view(configure),
{
    let mut s = String::new();
    s.append("CPU ");
    push_dec(&mut s, cpu_index);
    s.append(" ");
    if configure {
        s.append("configured");
    } else {
        s.append("deconfigured");
    }
    proof {
        assert(s@ =~= "CPU "@ + dec_seq(cpu_index as int) + " "@ + configure_state_view(configure));
    }
    s
}

/// The operation description of a failed online write, with the deconfigured
/// hint appended when an enable attempt found the CPU deconfigured.
pub open spec fn enable_failed_view(i: int, enable: bool, hint: bool) -> Seq<char> {
    "CPU "@ + dec_seq(i) + " "@ + (if enable {
        "enable"@
    } else {
        "disable"@
    }) + " failed"@ + (if hint {
        " (CPU is deconfigured)"@
    } else {
        Seq::<char>::empty()
    })
}

/// Rewrites the error of a failed online write: the operation description
/// becomes "CPU {index} {enable|disable} failed", with the parenthetical
/// deconfigured hint exactly when the operation was an enable attempt and
/// the configure attribute had been read as zero.
pub fn enable_failure_error(
    err: ChCpuError,
    cpu_index: usize,
    enable: bool,
    configured: &Result<i32, ChCpuError>,
) -> (r: ChCpuError)
    ensures
        ({
            let hint = enable && (*configured matches Ok(v) && v == 0);
            let msg = enable_failed_view(cpu_index as int, enable, hint);
            match err {
                ChCpuError::IO0(_, e) => r matches ChCpuError::IO0(m, e2) && m@ == msg && e2 == e,
                ChCpuError::IO1(_, p, e) => r matches ChCpuError::IO1(m, p2, e2) && m@ == msg && p2
                    == p && e2 == e,
                _ => r == err,
            }
        }),
{
    let hint = enable && match configured {
        Ok(v) => *v == 0,
        Err(_) => false,
    };
    let mut s = String::new();
    s.append("CPU ");
    push_dec(&mut s, cpu_index);
    s.append(" ");
    if enable {
        s.append("enable");
    } else {
        s.append("disable");
    }
    s.append(" failed");
    if hint {
        s.append(" (CPU is deconfigured)");
    }
    proof {
        assert(s@ =~= enable_failed_view(
            cpu_index as int,
            enable,
            enable && (*configured matches Ok(v) && v == 0),
        ));
    }
    err.with_io_message(s)
}

/// The operation description of a failed configure write.
pub open spec fn configure_failed_view(i: int, configure: bool) -> Seq<char> {
    "CPU "@ + dec_seq(i) + " "@ + (if configure {
        "configure"@
    } else {
        "deconfigure"@
    }) + " failed"@
}

/// Rewrites the error of a failed configure write: the operation description
/// becomes "CPU {index} {configure|deconfigure} failed".
pub fn configure_failure_error(err: ChCpuError, cpu_index: usize, configure: bool) -> (r:
    ChCpuError)
    ensures
        ({
            let msg = configure_failed_view(cpu_index as int, configure);
            match err {
                ChCpuError::IO0(_, e) => r matches ChCpuError::IO0(m, e2) && m@ == msg && e2 == e,
                ChCpuError::IO1(_, p, e) => r matches ChCpuError::IO1(m, p2, e2) && m@ == msg && p2
                    == p && e2 == e,
                _ => r == err,
            }
        }),
{
    let mut s = String::new();
    s.append("CPU ");
    push_dec(&mut s, cpu_index);
    s.append(" ");
    if configure {
        s.append("configure");
    } else {
        s.append("deconfigure");
    }
    s.append(" failed");
    proof {
        assert(s@ =~= configure_failed_view(cpu_index as int, configure));
    }
    err.with_io_message(s)
}

/// The confirmation printed after the dispatching mode was set.
pub fn set_dispatch_success_message(mode: DispatchMode) -> (r: String)
    ensures
        r@ == "Successfully set "@ + mode.name_view() + " dispatching mode"@,
{
    let mut s = String::new();
    s.append("Successfully set ");
    match mode {
        DispatchMode::Horizontal => s.append("horizontal"),
        DispatchMode::Vertical => s.append("vertical"),
    }
    s.append(" dispatching mode");
    proof {
        assert(s@ =~= "Successfully set "@ + mode.name_view() + " dispatching mode"@);
    }
    s
}

/// The confirmation printed after a rescan was triggered.
pub fn rescan_success_message() -> (r: String)
    ensures
        r@ == "Triggered rescan of CPUs"@,
{
    String::from_str("Triggered rescan of CPUs")
}

/// The root of the kernel's CPU control tree.
pub fn sysfs_root_path() -> (r: String)
    ensures
        r@ == "/sys/devices/system/cpu"@,
{
    String::from_str("/sys/devices/system/cpu")
}

/// The full logical path of an entry under the control root, as carried in
/// I/O errors.
pub fn inner_path(name: &str) -> (r: String)
    ensures
        r@ == "/sys/devices/system/cpu/"@ + name@,
{
    let mut s = String::from_str("/sys/devices/system/cpu/");
    s.append(name);
    s
}

/// The control directory name of one CPU index.
pub fn cpu_dir_name(cpu_index: usize) -> (r: String)
    ensures
        r@ == "cpu"@ + dec_seq(cpu_index as int),
{
    let mut s = String::from_str("cpu");
    push_dec(&mut s, cpu_index);
    s
}

/// The per-CPU online attribute, relative to the control root.
pub fn cpu_online_path(cpu_index: usize) -> (r: String)
    ensures
        r@ == "cpu"@ + dec_seq(cpu_index as int) + "/online"@,
{
    let mut s = String::from_str("cpu");
    push_dec(&mut s, cpu_index);
    s.append("/online");
    proof {
        assert(s@ =~= "cpu"@ + dec_seq(cpu_index as int) + "/online"@);
    }
    s
}

/// The per-CPU configure attribute, relative to the control root.
pub fn cpu_configure_path(cpu_index: usize) -> (r: String)
    ensures
        r@ == "cpu"@ + dec_seq(cpu_index as int) + "/configure"@,
{
    let mut s = String::from_str("cpu");
    push_dec(&mut s, cpu_index);
    s.append("/configure");
    proof {
        assert(s@ =~= "cpu"@ + dec_seq(cpu_index as int) + "/configure"@);
    }
    s
}

} // verus!
