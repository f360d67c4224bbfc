//! `shift`: retime a file and drop empty events.
use vstd::prelude::*;
use crate::subs::{events_view, EventView, SubFile};
use crate::subs::shift::{drop_empty, shift_events, shift_fits, shifted, with_text};

verus! {

/// Options of `subx shift <IN> <OUT>`.
#[derive(Debug)]
pub struct ShiftArgs {
    /// Input subtitle file or folder.
    pub input: std::path::PathBuf,
    /// Output subtitle file or folder.
    pub output: std::path::PathBuf,
    /// Shift in ms (+delays, -advances).
    pub shift_ms: i32,
    /// Keep empty events instead of deleting them.
    pub no_clean: bool,
    /// Keep tag-only events.
    pub keep_tag_only: bool,
    /// Recurse into subfolders (folder mode).
    pub recursive: bool,
    /// File extensions to process.
    pub ext: String,
}

/// Event counts of one shifted file.
#[derive(Debug, Clone, Copy, PartialEq, Eq, Structural)]
pub struct ShiftSummary {
    pub before: usize,
    pub after: usize,
    pub removed: usize,
}

/// The events of a file after `shift`: moved by `shift_ms`, then (unless
/// `no_clean`) the empty ones dropped.
pub open spec fn shift_result(
    evs: Seq<EventView>,
    shift_ms: int,
    no_clean: bool,
    keep_tag_only: bool,
) -> Seq<EventView> {
    let moved = if shift_ms != 0 {
        evs.map_values(|e: EventView| shifted(e, shift_ms))
    } else {
        evs
    };
    if no_clean {
        moved
    } else {
        with_text(moved, !keep_tag_only)
    }
}

/// Shifts a loaded file in place and drops empty events as the options
/// say; the rest of the file is kept.
pub fn shift_one(file: &mut SubFile, args: &ShiftArgs) -> (r: ShiftSummary)
    requires
        args.shift_ms != 0 ==> shift_fits(events_view(old(file).events@), args.shift_ms as int),
    ensures
        events_view(final(file).events@) == shift_result(
            events_view(old(file).events@),
            args.shift_ms as int,
            args.no_clean,
            args.keep_tag_only,
        ),
        final(file).format == old(file).format,
        final(file).header@ == old(file).header@,
        final(file).ass_columns@ == old(file).ass_columns@,
        r.before == old(file).events@.len(),
        r.after == final(file).events@.len(),
        r.removed == r.before - r.after,
{
    let before = file.events.len();
    if args.shift_ms != 0 {
        shift_events(&mut file.events, args.shift_ms);
    }
    let mut removed: usize = 0;
    if !args.no_clean {
        let mut taken: Vec<crate::subs::Event> = Vec::new();
        std::mem::swap(&mut taken, &mut file.events);
        let (kept, r) = drop_empty(taken, !args.keep_tag_only);
        file.events = kept;
        removed = r;
    }
    ShiftSummary { before, after: file.events.len(), removed }
}

} // verus!
