//! What the tester found, and how it reports it.
use vstd::prelude::*;
use vstd::string::*;

use super::pattern::Mismatch;
use super::text::{
    append_decimal, append_hex, append_hex_byte, append_layout, decimal, hex_byte, hexadecimal,
    layout_text,
};
use crate::layout::Layout;

verus! {

/// What the model caught.
#[derive(Clone, Copy, Debug, PartialEq, Eq, Structural)]
pub enum FailureKind {
    /// A returned block was not aligned to its Layout.
    Misaligned,
    /// A returned block overlapped a live block (or wrapped around the address space).
    Overlap,
    /// A live block no longer held what the model wrote.
    Corrupted,
    /// `alloc_zeroed` returned a non-zero byte.
    NotZeroed,
    /// `realloc` did not preserve the first `min(old, new)` bytes.
    ReallocLostBytes,
    /// `alloc`, `alloc_zeroed` or `realloc` returned `None` within the live-byte cap.
    AllocFailed,
}

/// The call that returned a block.
#[derive(Clone, Copy, Debug, PartialEq, Eq, Structural)]
pub enum Call {
    Alloc,
    AllocZeroed,
    Realloc,
}

/// A violation, with the addresses, layouts and bytes involved.
#[derive(Clone, Copy, Debug, PartialEq, Eq, Structural)]
pub enum Finding {
    Misaligned { call: Call, start: usize, layout: Layout },
    Wraps { call: Call, start: usize, layout: Layout },
    Overlaps { call: Call, start: usize, layout: Layout, other: usize, other_end: usize },
    Refused { call: Call, layout: Layout, live_bytes: usize },
    NotZeroed { start: usize, layout: Layout, at: Mismatch },
    Corrupted { start: usize, layout: Layout, at: Mismatch, resizing: bool },
    RefusedResize { start: usize, layout: Layout, new_size: usize, live_bytes: usize },
    LostBytes { start: usize, layout: Layout, new_size: usize, moved: usize, at: Mismatch },
}

/// A contract violation, with everything needed to reproduce it.
#[derive(Clone, Debug, PartialEq, Eq)]
pub struct Failure {
    /// The violated property.
    pub kind: FailureKind,
    /// Zero-based index of the operation that detected it. A `Corrupted` failure was caused by
    /// some earlier operation; this is merely when the model looked.
    pub op_index: usize,
    /// The profile's name.
    pub profile: &'static str,
    /// The seed, when the run came from a generator rather than an arbitrary entropy source.
    pub seed: Option<u64>,
    /// Addresses, layouts and bytes involved.
    pub detail: String,
}

/// The kind of a finding.
pub open spec fn kind_of(f: Finding) -> FailureKind {
    match f {
        Finding::Misaligned { .. } => FailureKind::Misaligned,
        Finding::Wraps { .. } => FailureKind::Overlap,
        Finding::Overlaps { .. } => FailureKind::Overlap,
        Finding::Refused { .. } => FailureKind::AllocFailed,
        Finding::NotZeroed { .. } => FailureKind::NotZeroed,
        Finding::Corrupted { .. } => FailureKind::Corrupted,
        Finding::RefusedResize { .. } => FailureKind::AllocFailed,
        Finding::LostBytes { .. } => FailureKind::ReallocLostBytes,
    }
}

/// The name of a call.
pub open spec fn call_text(c: Call) -> Seq<char> {
    match c {
        Call::Alloc => "alloc"@,
        Call::AllocZeroed => "alloc_zeroed"@,
        Call::Realloc => "realloc"@,
    }
}

/// The name of a kind.
pub open spec fn kind_text(k: FailureKind) -> Seq<char> {
    match k {
        FailureKind::Misaligned => "Misaligned"@,
        FailureKind::Overlap => "Overlap"@,
        FailureKind::Corrupted => "Corrupted"@,
        FailureKind::NotZeroed => "NotZeroed"@,
        FailureKind::ReallocLostBytes => "ReallocLostBytes"@,
        FailureKind::AllocFailed => "AllocFailed"@,
    }
}

/// A finding in words.
pub open spec fn finding_text(f: Finding) -> Seq<char> {
    match f {
        Finding::Misaligned { call, start, layout } => call_text(call) + " returned "@
            + hexadecimal(start as int) + " for "@ + layout_text(layout),
        Finding::Wraps { call, start, layout } => call_text(call) + " returned "@ + hexadecimal(
            start as int,
        ) + " for "@ + layout_text(layout) + ", which wraps the address space"@,
        Finding::Overlaps { call, start, layout, other, other_end } => call_text(call)
            + " returned ["@ + hexadecimal(start as int) + ", "@ + hexadecimal(
            start + layout.size(),
        ) + ") for "@ + layout_text(layout) + ", overlapping the live block ["@ + hexadecimal(
            other as int,
        ) + ", "@ + hexadecimal(other_end as int) + ")"@,
        Finding::Refused { call, layout, live_bytes } => call_text(call) + " returned None for "@
            + layout_text(layout) + " with "@ + decimal(live_bytes as int) + " bytes live"@,
        Finding::NotZeroed { start, layout, at } => "alloc_zeroed returned "@ + hexadecimal(
            start as int,
        ) + " for "@ + layout_text(layout) + " with byte "@ + decimal(at.offset as int) + " = "@
            + hex_byte(at.found),
        Finding::Corrupted { start, layout, at, resizing } => "block "@ + hexadecimal(
            start as int,
        ) + " ("@ + layout_text(layout) + ") has byte "@ + decimal(at.offset as int) + " = "@
            + hex_byte(at.found) + ", expected "@ + hex_byte(at.expected) + if resizing {
            " before realloc"@
        } else {
            Seq::empty()
        },
        Finding::RefusedResize { start, layout, new_size, live_bytes } => "realloc of "@
            + hexadecimal(start as int) + " ("@ + layout_text(layout) + ") to "@ + decimal(
            new_size as int,
        ) + " returned None with "@ + decimal(live_bytes as int) + " bytes live"@,
        Finding::LostBytes { start, layout, new_size, moved, at } => "realloc of "@ + hexadecimal(
            start as int,
        ) + " ("@ + layout_text(layout) + ") to "@ + decimal(new_size as int) + " returned "@
            + hexadecimal(moved as int) + " with byte "@ + decimal(at.offset as int) + " = "@
            + hex_byte(at.found) + ", expected "@ + hex_byte(at.expected),
    }
}

/// `str::to_uppercase`: the uppercase equivalent of a string, which depends on the string alone.
pub uninterp spec fn uppercased(s: Seq<char>) -> Seq<char>;

/// Calls `str::to_uppercase` and names its result; nothing more is said of it.
#[verifier::external_body]
fn uppercase(s: &str) -> (r: String)
    ensures
        r@ == uppercased(s@),
{
    s.to_uppercase()
}

/// A failure in words: what, when, in which profile and, with a seed, how to reproduce it.
pub open spec fn failure_text(f: &Failure) -> Seq<char> {
    let head = kind_text(f.kind) + " at op "@ + decimal(f.op_index as int) + " of profile "@
        + f.profile@;
    match f.seed {
        None => head + ": "@ + f.detail@,
        Some(seed) => head + " (seed "@ + hexadecimal(seed as int) + ")"@ + ": "@ + f.detail@
            + ". Reproduce with model::run(alloc, "@ + hexadecimal(seed as int)
            + ", ops, Profile::"@ + uppercased(f.profile@) + ")"@,
    }
}

fn append_call(s: &mut String, c: Call)
    ensures
        final(s)@ == old(s)@ + call_text(c),
{
    match c {
        Call::Alloc => s.append("alloc"),
        Call::AllocZeroed => s.append("alloc_zeroed"),
        Call::Realloc => s.append("realloc"),
    }
}

/// The kind of a finding.
pub fn failure_kind(f: &Finding) -> (r: FailureKind)
    ensures
        r == kind_of(*f),
{
    match f {
        Finding::Misaligned { .. } => FailureKind::Misaligned,
        Finding::Wraps { .. } => FailureKind::Overlap,
        Finding::Overlaps { .. } => FailureKind::Overlap,
        Finding::Refused { .. } => FailureKind::AllocFailed,
        Finding::NotZeroed { .. } => FailureKind::NotZeroed,
        Finding::Corrupted { .. } => FailureKind::Corrupted,
        Finding::RefusedResize { .. } => FailureKind::AllocFailed,
        Finding::LostBytes { .. } => FailureKind::ReallocLostBytes,
    }
}

/// A finding in words.
pub fn describe(f: &Finding) -> (r: String)
    requires
        f matches Finding::Overlaps { start, layout, .. } ==> start + layout.size() <= usize::MAX,
    ensures
        r@ == finding_text(*f),
{
    let mut s = String::from_str("");
    proof {
        reveal_strlit("");
    }
    match f {
        Finding::Misaligned { call, start, layout } => {
            append_call(&mut s, *call);
            s.append(" returned ");
            append_hex(&mut s, *start as u64);
            s.append(" for ");
            append_layout(&mut s, layout);
        },
        Finding::Wraps { call, start, layout } => {
            append_call(&mut s, *call);
            s.append(" returned ");
            append_hex(&mut s, *start as u64);
            s.append(" for ");
            append_layout(&mut s, layout);
            s.append(", which wraps the address space");
        },
        Finding::Overlaps { call, start, layout, other, other_end } => {
            append_call(&mut s, *call);
            s.append(" returned [");
            append_hex(&mut s, *start as u64);
            s.append(", ");
            append_hex(&mut s, (*start + layout.size()) as u64);
            s.append(") for ");
            append_layout(&mut s, layout);
            s.append(", overlapping the live block [");
            append_hex(&mut s, *other as u64);
            s.append(", ");
            append_hex(&mut s, *other_end as u64);
            s.append(")");
        },
        Finding::Refused { call, layout, live_bytes } => {
            append_call(&mut s, *call);
            s.append(" returned None for ");
            append_layout(&mut s, layout);
            s.append(" with ");
            append_decimal(&mut s, *live_bytes as u64);
            s.append(" bytes live");
        },
        Finding::NotZeroed { start, layout, at } => {
            s.append("alloc_zeroed returned ");
            append_hex(&mut s, *start as u64);
            s.append(" for ");
            append_layout(&mut s, layout);
            s.append(" with byte ");
            append_decimal(&mut s, at.offset as u64);
            s.append(" = ");
            append_hex_byte(&mut s, at.found);
        },
        Finding::Corrupted { start, layout, at, resizing } => {
            s.append("block ");
            append_hex(&mut s, *start as u64);
            s.append(" (");
            append_layout(&mut s, layout);
            s.append(") has byte ");
            append_decimal(&mut s, at.offset as u64);
            s.append(" = ");
            append_hex_byte(&mut s, at.found);
            s.append(", expected ");
            append_hex_byte(&mut s, at.expected);
            if *resizing {
                s.append(" before realloc");
            }
        },
        Finding::RefusedResize { start, layout, new_size, live_bytes } => {
            s.append("realloc of ");
            append_hex(&mut s, *start as u64);
            s.append(" (");
            append_layout(&mut s, layout);
            s.append(") to ");
            append_decimal(&mut s, *new_size as u64);
            s.append(" returned None with ");
            append_decimal(&mut s, *live_bytes as u64);
            s.append(" bytes live");
        },
        Finding::LostBytes { start, layout, new_size, moved, at } => {
            s.append("realloc of ");
            append_hex(&mut s, *start as u64);
            s.append(" (");
            append_layout(&mut s, layout);
            s.append(") to ");
            append_decimal(&mut s, *new_size as u64);
            s.append(" returned ");
            append_hex(&mut s, *moved as u64);
            s.append(" with byte ");
            append_decimal(&mut s, at.offset as u64);
            s.append(" = ");
            append_hex_byte(&mut s, at.found);
            s.append(", expected ");
            append_hex_byte(&mut s, at.expected);
        },
    }
    proof {
        assert(s@ =~= finding_text(*f));
    }
    s
}

impl Failure {
    /// The failure in words.
    pub fn report(&self) -> (r: String)
        ensures
            r@ == failure_text(self),
    {
        let mut s = String::from_str(
            match self.kind {
                FailureKind::Misaligned => "Misaligned",
                FailureKind::Overlap => "Overlap",
                FailureKind::Corrupted => "Corrupted",
                FailureKind::NotZeroed => "NotZeroed",
                FailureKind::ReallocLostBytes => "ReallocLostBytes",
                FailureKind::AllocFailed => "AllocFailed",
            },
        );
        s.append(" at op ");
        append_decimal(&mut s, self.op_index as u64);
        s.append(" of profile ");
        s.append(self.profile);
        match self.seed {
            None => {
                s.append(": ");
                s.append(self.detail.as_str());
            },
            Some(seed) => {
                s.append(" (seed ");
                append_hex(&mut s, seed);
                s.append(")");
                s.append(": ");
                s.append(self.detail.as_str());
                s.append(". Reproduce with model::run(alloc, ");
                append_hex(&mut s, seed);
                s.append(", ops, Profile::");
                let upper = uppercase(self.profile);
                s.append(upper.as_str());
                s.append(")");
            },
        }
        proof {
            assert(s@ =~= failure_text(self));
        }
        s
    }
}

} // verus!
