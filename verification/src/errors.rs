//! The error kinds of the CPU control tool, with their exact rendered text.
//!
//! I/O failures carry plain text: the operation description, the logical path
//! where one applies, and the text of the underlying OS error.

use vstd::prelude::*;
use crate::textnum::dec_seq;
use crate::textnum::push_dec;

verus! {

#[derive(Debug, Clone, PartialEq, Eq)]
pub enum ChCpuError {
    /// The CPU is online, so it may not be deconfigured.
    CpuIsEnabled(usize),
    /// The kernel exposes no configure control for this CPU.
    CpuNotConfigurable(usize),
    /// The kernel exposes no online control for this CPU.
    CpuNotHotPluggable(usize),
    /// The control tree has no rescan trigger.
    CpuRescanUnsupported,
    /// A range element places its first index after its last.
    CpuSpecFirstAfterLast,
    /// A list element is not a non-negative decimal integer.
    CpuSpecNotPositiveInteger,
    /// The CPU list text holds no element.
    EmptyCpuList,
    /// No control directory exists for this CPU index.
    InvalidCpuIndex(usize),
    /// An OS failure: operation description and OS error text.
    IO0(String, String),
    /// An OS failure at a path: description, logical path, OS error text.
    IO1(String, String, String),
    /// Refusing to disable the last online CPU.
    OneCpuIsEnabled,
    /// An attribute file held text that is not a scalar value.
    NotInteger(String),
    /// The control tree has no dispatching control.
    SetCpuDispatchUnsupported,
}

impl ChCpuError {
    /// The rendered message for each error kind.
    pub open spec fn message_view(self) -> Seq<char> {
        match self {
            ChCpuError::CpuIsEnabled(i) => "CPU "@ + dec_seq(i as int) + " is enabled"@,
            ChCpuError::CpuNotConfigurable(i) => "CPU "@ + dec_seq(i as int)
                + " is not configurable"@,
            ChCpuError::CpuNotHotPluggable(i) => "CPU "@ + dec_seq(i as int)
                + " is not hot pluggable"@,
            ChCpuError::CpuRescanUnsupported => "this system does not support rescanning of CPUs"@,
            ChCpuError::CpuSpecFirstAfterLast => "first element of CPU list range is greater than its last element"@,
            ChCpuError::CpuSpecNotPositiveInteger => "CPU list element is not a positive number"@,
            ChCpuError::EmptyCpuList => "CPU list is empty"@,
            ChCpuError::InvalidCpuIndex(i) => "CPU "@ + dec_seq(i as int) + " does not exist"@,
            ChCpuError::IO0(m, e) => m@ + ": "@ + e@,
            ChCpuError::IO1(m, p, e) => m@ + " '"@ + p@ + "': "@ + e@,
            ChCpuError::OneCpuIsEnabled => "only one CPU is enabled"@,
            ChCpuError::NotInteger(d) => "data is not an integer '"@ + d@ + "'"@,
            ChCpuError::SetCpuDispatchUnsupported => "this system does not support setting the dispatching mode of CPUs"@,
        }
    }

    /// Builds a pathless I/O error from an operation description and the OS
    /// error text.
    pub fn io0(message: String, error: String) -> (r: Self)
        ensures
            r == ChCpuError::IO0(message, error),
    {
        ChCpuError::IO0(message, error)
    }

    /// Builds an I/O error carrying the logical path it concerns.
    pub fn io1(message: String, path: String, error: String) -> (r: Self)
        ensures
            r == ChCpuError::IO1(message, path, error),
    {
        ChCpuError::IO1(message, path, error)
    }

    /// Replaces the operation description of an I/O error; every other error
    /// kind passes through unchanged.
    pub fn with_io_message(self, message: String) -> (r: Self)
        ensures
            match self {
                ChCpuError::IO0(_, e) => r == ChCpuError::IO0(message, e),
                ChCpuError::IO1(_, p, e) => r == ChCpuError::IO1(message, p, e),
                _ => r == self,
            },
    {
        match self {
            ChCpuError::IO0(_, e) => ChCpuError::IO0(message, e),
            ChCpuError::IO1(_, p, e) => ChCpuError::IO1(message, p, e),
            other => other,
        }
    }

    /// Renders the message exactly as `message_view` states it.
    pub fn message(&self) -> (r: String)
        ensures
            r@ == self.message_view(),
    {
        let mut s = String::new();
        match self {
            ChCpuError::CpuIsEnabled(i) => {
                s.append("CPU ");
                push_dec(&mut s, *i);
                s.append(" is enabled");
            },
            ChCpuError::CpuNotConfigurable(i) => {
                s.append("CPU ");
                push_dec(&mut s, *i);
                s.append(" is not configurable");
            },
            ChCpuError::CpuNotHotPluggable(i) => {
                s.append("CPU ");
                push_dec(&mut s, *i);
                s.append(" is not hot pluggable");
            },
            ChCpuError::CpuRescanUnsupported => {
                s.append("this system does not support rescanning of CPUs");
            },
            ChCpuError::CpuSpecFirstAfterLast => {
                s.append("first element of CPU list range is greater than its last element");
            },
            ChCpuError::CpuSpecNotPositiveInteger => {
                s.append("CPU list element is not a positive number");
            },
            ChCpuError::EmptyCpuList => {
                s.append("CPU list is empty");
            },
            ChCpuError::InvalidCpuIndex(i) => {
                s.append("CPU ");
                push_dec(&mut s, *i);
                s.append(" does not exist");
            },
            ChCpuError::IO0(m, e) => {
                s.append(m.as_str());
                s.append(": ");
                s.append(e.as_str());
            },
            ChCpuError::IO1(m, p, e) => {
                s.append(m.as_str());
                s.append(" '");
                s.append(p.as_str());
                s.append("': ");
                s.append(e.as_str());
            },
            ChCpuError::OneCpuIsEnabled => {
                s.append("only one CPU is enabled");
            },
            ChCpuError::NotInteger(d) => {
                s.append("data is not an integer '");
                s.append(d.as_str());
                s.append("'");
            },
            ChCpuError::SetCpuDispatchUnsupported => {
                s.append("this system does not support setting the dispatching mode of CPUs");
            },
        }
        proof {
            assert(s@ =~= self.message_view());
        }
        s
    }
}

} // verus!
