//! `clean`: scrub ASS files, keep karaoke, normalize the header.
use vstd::prelude::*;
use crate::subs::{events_view, standard_columns, standard_columns_spec, strings_view, EventView, SubFile, SubFormat};
use crate::subs::clean::{clean_all, clean_events, default_header, default_header_spec, karaoke_count, CleanStats};
use crate::subs::shift::{shift_events, shift_fits, shifted};
use crate::text::{ascii_lowercase_known, chars_eq, chars_of, lowercase_spec, to_lowercase};

verus! {

/// Options of `subx clean <IN> <OUT>`.
#[derive(Debug)]
pub struct CleanArgs {
    /// Input .ass file or folder.
    pub input: std::path::PathBuf,
    /// Output .ass file or folder.
    pub output: std::path::PathBuf,
    /// Keep vertical karaoke.
    pub keep_karaoke: bool,
    /// Drop junk (visual tags, drawings, sync-titles).
    pub drop_junk: bool,
    /// Normalized font.
    pub font: String,
    /// Also shift timestamps (ms, +delays / -advances).
    pub shift_ms: i32,
    /// Edit in place.
    pub in_place: bool,
    /// Recurse into subfolders.
    pub recursive: bool,
}

/// `clean` only takes `.ass` / `.ssa` files (extension compared in lower
/// case).
pub fn clean_ext_ok(ext: &str) -> (b: bool)
    ensures
        b == (lowercase_spec(ext@) == "ass"@ || lowercase_spec(ext@) == "ssa"@),
        ascii_lowercase_known(ext@),
{
    let l = to_lowercase(&chars_of(ext));
    chars_eq(&l, &chars_of("ass")) || chars_eq(&l, &chars_of("ssa"))
}

/// The events of a cleaned file.
pub open spec fn clean_result(evs: Seq<EventView>, keep_karaoke: bool, drop_junk: bool, shift_ms: int) -> Seq<
    EventView,
> {
    if keep_karaoke || drop_junk {
        clean_all(evs, shift_ms).map_values(|p: (EventView, bool)| p.0)
    } else if shift_ms != 0 {
        evs.map_values(|e: EventView| shifted(e, shift_ms))
    } else {
        evs
    }
}

/// Cleans a loaded file: scrubbed (or only shifted) events under the
/// default header in the standard column order; the counts say how many
/// dialogues and karaoke lines were kept.
pub fn clean_one(file: &SubFile, args: &CleanArgs) -> (r: (SubFile, CleanStats))
    requires
        args.shift_ms != 0 ==> shift_fits(events_view(file.events@), args.shift_ms as int),
    ensures
        r.0@.format == SubFormat::Ass,
        r.0@.header == default_header_spec(args.font@),
        r.0@.ass_columns == standard_columns_spec(),
        r.0@.events == clean_result(
            events_view(file.events@),
            args.keep_karaoke,
            args.drop_junk,
            args.shift_ms as int,
        ),
        r.1.dialogs == if args.keep_karaoke || args.drop_junk {
            r.0@.events.len()
        } else {
            file.events@.len()
        },
        r.1.karaoke == if args.keep_karaoke || args.drop_junk {
            karaoke_count(clean_all(events_view(file.events@), args.shift_ms as int))
        } else {
            0
        },
{
    let (events, stats) = if args.keep_karaoke || args.drop_junk {
        clean_events(file.events.as_slice(), args.font.as_str(), args.shift_ms)
    } else {
        let mut events: Vec<crate::subs::Event> = Vec::new();
        let mut k: usize = 0;
        while k < file.events.len()
            invariant
                k <= file.events@.len(),
                events_view(events@) == events_view(file.events@).take(k as int),
            decreases file.events@.len() - k,
        {
            let ghost prev = events@;
            events.push(file.events[k].duplicate());
            assert(events_view(events@) =~= events_view(prev).push(file.events@[k as int]@));
            assert(events_view(file.events@).take(k + 1) =~= events_view(file.events@).take(
                k as int,
            ).push(file.events@[k as int]@));
            k = k + 1;
        }
        assert(events_view(file.events@).take(k as int) =~= events_view(file.events@));
        if args.shift_ms != 0 {
            shift_events(&mut events, args.shift_ms);
        }
        (events, CleanStats { dialogs: file.events.len(), karaoke: 0 })
    };
    let out = SubFile {
        format: SubFormat::Ass,
        header: default_header(args.font.as_str()),
        ass_columns: standard_columns(),
        events,
    };
    (out, stats)
}

} // verus!
