//! Which reports of the OpenGL debug output stop the program.
//!
//! Every error report (type `GL_DEBUG_TYPE_ERROR`) does, whatever its
//! severity; every other report is ignored.

use vstd::prelude::*;

verus! {

/// Reads `gl::DEBUG_TYPE_ERROR`, which the `gl` crate generates from the
/// Khronos registry entry `GL_DEBUG_TYPE_ERROR`, value `0x824C`.
#[verifier::external_body]
fn gl_debug_type_error() -> (r: u32)
    ensures
        r == 0x824C,
{
    gl::DEBUG_TYPE_ERROR
}

/// Reads `gl::DEBUG_SEVERITY_HIGH`, generated from the registry entry
/// `GL_DEBUG_SEVERITY_HIGH`, value `0x9146`.
#[verifier::external_body]
fn gl_debug_severity_high() -> (r: u32)
    ensures
        r == 0x9146,
{
    gl::DEBUG_SEVERITY_HIGH
}

/// Reads `gl::DEBUG_SEVERITY_MEDIUM`, generated from the registry entry
/// `GL_DEBUG_SEVERITY_MEDIUM`, value `0x9147`.
#[verifier::external_body]
fn gl_debug_severity_medium() -> (r: u32)
    ensures
        r == 0x9147,
{
    gl::DEBUG_SEVERITY_MEDIUM
}

/// Reads `gl::DEBUG_SEVERITY_LOW`, generated from the registry entry
/// `GL_DEBUG_SEVERITY_LOW`, value `0x9148`.
#[verifier::external_body]
fn gl_debug_severity_low() -> (r: u32)
    ensures
        r == 0x9148,
{
    gl::DEBUG_SEVERITY_LOW
}

/// The severity of an OpenGL error report that stops the program.
#[derive(Clone, Copy, PartialEq, Eq, Structural, Debug)]
pub enum Severity {
    High,
    Medium,
    Low,
    /// Any severity other than high, medium and low (such as a notification).
    Unknown,
}

/// The severity with which a report of type `e_type` and severity
/// `severity` stops the program: every error report (`GL_DEBUG_TYPE_ERROR`)
/// does, and no other report.
pub open spec fn stopping_severity(e_type: u32, severity: u32) -> Option<Severity> {
    if e_type != 0x824C {
        None
    } else if severity == 0x9146 {
        Some(Severity::High)
    } else if severity == 0x9147 {
        Some(Severity::Medium)
    } else if severity == 0x9148 {
        Some(Severity::Low)
    } else {
        Some(Severity::Unknown)
    }
}

/// Only error reports stop the program, and every error report does: a
/// report of any other type is ignored whatever its severity; an error
/// report names its severity when it is high, medium or low, and is of
/// unknown severity otherwise.
pub proof fn law_error_reports_stop(e_type: u32, severity: u32)
    ensures
        e_type != 0x824C ==> stopping_severity(e_type, severity) is None,
        e_type == 0x824C ==> stopping_severity(e_type, severity) is Some,
        stopping_severity(0x824C, severity) == Some(Severity::High) <==> severity == 0x9146,
        stopping_severity(0x824C, severity) == Some(Severity::Medium) <==> severity == 0x9147,
        stopping_severity(0x824C, severity) == Some(Severity::Low) <==> severity == 0x9148,
        stopping_severity(0x824C, severity) == Some(Severity::Unknown) <==> (severity != 0x9146
            && severity != 0x9147 && severity != 0x9148),
{
}

/// Whether, and with which severity, a debug report stops the program.
pub fn report_severity(e_type: u32, severity: u32) -> (r: Option<Severity>)
    ensures
        r == stopping_severity(e_type, severity),
{
    if e_type != gl_debug_type_error() {
        return None;
    }
    if severity == gl_debug_severity_high() {
        Some(Severity::High)
    } else if severity == gl_debug_severity_medium() {
        Some(Severity::Medium)
    } else if severity == gl_debug_severity_low() {
        Some(Severity::Low)
    } else {
        Some(Severity::Unknown)
    }
}

/// The word for a severity in the error message.
pub fn severity_name(s: Severity) -> (r: &'static str)
    ensures
        s == Severity::High ==> r@ == "high"@,
        s == Severity::Medium ==> r@ == "medium"@,
        s == Severity::Low ==> r@ == "low"@,
        s == Severity::Unknown ==> r@ == "unknown"@,
{
    match s {
        Severity::High => "high",
        Severity::Medium => "medium",
        Severity::Low => "low",
        Severity::Unknown => "unknown",
    }
}

} // verus!
