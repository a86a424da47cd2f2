//! Which streams a choice of displays stands for.

use vstd::prelude::*;
use crate::media::CaptureSource;
use crate::streams::{
    DisplayInfo, StreamSpec, display_with, extras_of, named, resolved,
    stream_config, stream_number,
};
use crate::text::{decimal, split, trim, unsigned};
use crate::laws::text::{decimals_are_digits, rejoined, trimming_leaves_the_rest,
    written_numbers_are_read, without, found_at_the_first_place};

verus! {

/// Stream `s` shows display `d` as stream number `id`: at its own size and place, under its own
/// id, taken from the screen, at 72 frames and 60 Mbit a second, and without audio.
pub open spec fn shows_display(s: StreamSpec, d: DisplayInfo, id: int) -> bool {
    &&& s.stream_id == id
    &&& s.display == Some(d.id)
    &&& s.x == d.x
    &&& s.y == d.y
    &&& s.source is Sck
    &&& s.params.width == d.width
    &&& s.params.height == d.height
    &&& s.params.codec == 1
    &&& s.params.refresh == 72
    &&& s.params.audio == 0
    &&& s.params.bitrate_kbps == 60_000
}

/// `main` is one stream, number 0, of the source and the size that were given, on any host.
pub proof fn main_is_one_stream(
    source: CaptureSource,
    width: u32,
    height: u32,
    supported: bool,
    available: Seq<DisplayInfo>,
)
    ensures
        ({
            let r = resolved("main"@, source, width, height, supported, available);
            &&& r is Ok
            &&& r->Ok_0.len() == 1
            &&& r->Ok_0[0].stream_id == 0
            &&& r->Ok_0[0].source == source
            &&& r->Ok_0[0].display is None
            &&& r->Ok_0[0].x == 0
            &&& r->Ok_0[0].y == 0
            &&& r->Ok_0[0].params.width == width
            &&& r->Ok_0[0].params.height == height
            &&& r->Ok_0[0].params.codec == 1
            &&& r->Ok_0[0].params.refresh == 72
            &&& r->Ok_0[0].params.audio == 0
            &&& r->Ok_0[0].params.bitrate_kbps == 60_000
        }),
{
}

/// Streams are numbered 0, 2, 3 and so on, in 16 bits: the number 1 is audio's.
pub proof fn numbers_leave_audio_out(i: int)
    requires
        0 <= i,
    ensures
        i == 0 ==> stream_number(i) == 0,
        0 < i < 0xffff ==> stream_number(i) == i + 1,
        0 < i ==> (stream_number(i) - (i + 1)) % 0x1_0000 == 0,
        i < 0xffff ==> stream_number(i) != 1,
{
}

/// The displays are `all` there are: each becomes a stream, in their order.
pub proof fn all_is_every_display(width: u32, height: u32, available: Seq<DisplayInfo>)
    requires
        0 < available.len() < 0xffff,
    ensures
        ({
            let r = resolved("all"@, CaptureSource::Sck, width, height, true, available);
            &&& r is Ok
            &&& r->Ok_0.len() == available.len()
            &&& shows_display(r->Ok_0[0], available[0], 0)
            &&& forall|i: int|
                0 < i < available.len() ==> shows_display(
                    #[trigger] r->Ok_0[i],
                    available[i],
                    i + 1,
                )
        }),
{
    reveal_strlit("all");
    reveal_strlit("main");
    assert("all"@.len() == 3 && "main"@.len() == 4);
}

/// A display is found by its id: the first that has it, and none where none has.
pub proof fn display_is_found_by_id(available: Seq<DisplayInfo>, id: u32)
    ensures
        match display_with(available, id) {
            None => forall|i: int| 0 <= i < available.len() ==> (#[trigger] available[i]).id != id,
            Some(d) => d.id == id && exists|i: int|
                0 <= i < available.len() && #[trigger] available[i] == d && forall|j: int|
                    0 <= j < i ==> (#[trigger] available[j]).id != id,
        },
    decreases available.len(),
{
    if available.len() > 0 && available.first().id != id {
        let t = available.drop_first();
        display_is_found_by_id(t, id);
        match display_with(available, id) {
            None => {
                assert forall|i: int| 0 <= i < available.len() implies (#[trigger] available[i]).id
                    != id by {
                    if i > 0 {
                        assert(t[i - 1] == available[i]);
                    }
                }
            },
            Some(d) => {
                let i = choose|i: int|
                    0 <= i < t.len() && #[trigger] t[i] == d && forall|j: int|
                        0 <= j < i ==> (#[trigger] t[j]).id != id;
                assert(available[i + 1] == d);
                assert forall|j: int| 0 <= j < i + 1 implies (#[trigger] available[j]).id != id by {
                    if j > 0 {
                        assert(t[j - 1] == available[j]);
                    }
                }
            },
        }
    } else if available.len() > 0 {
        assert(available[0] == available.first());
    }
}

/// The ids in decimal.
pub open spec fn written_ids(ids: Seq<u32>) -> Seq<Seq<char>> {
    Seq::new(ids.len(), |i: int| decimal(ids[i] as nat))
}

proof fn lemma_split_rejoined(parts: Seq<Seq<char>>, c: char)
    requires
        parts.len() > 0,
        forall|i: int| 0 <= i < parts.len() ==> without(#[trigger] parts[i], c),
    ensures
        split(rejoined(parts, c), c) == parts,
    decreases parts.len(),
{
    let s = rejoined(parts, c);
    found_at_the_first_place(s, c);
    let at = crate::text::find(s, c);
    assert(without(parts[0], c));
    if parts.len() == 1 {
        assert(split(s, c) =~= parts);
    } else {
        let t = parts.drop_first();
        assert forall|i: int| 0 <= i < t.len() implies without(#[trigger] t[i], c) by {
            assert(t[i] == parts[i + 1]);
        }
        lemma_split_rejoined(t, c);
        let n = parts[0].len() as int;
        assert(s[n] == c);
        assert(at == n) by {
            if at < n {
                assert(s[at] == parts[0][at]);
            }
        }
        assert(s.take(n) =~= parts[0]);
        assert(s.skip(n + 1) =~= rejoined(t, c));
        assert(split(s, c) =~= parts);
    }
}

/// Each entry of a list names the first display with the number that it writes, white space
/// aside, in the order of the list.
pub proof fn entries_name_their_displays(
    tokens: Seq<Seq<char>>,
    ids: Seq<u32>,
    available: Seq<DisplayInfo>,
)
    requires
        tokens.len() == ids.len(),
        forall|i: int|
            0 <= i < ids.len() ==> unsigned(trim(#[trigger] tokens[i])) == Some(ids[i]),
        forall|i: int| 0 <= i < ids.len() ==> display_with(available, #[trigger] ids[i]) is Some,
    ensures
        named(tokens, available) is Ok,
        named(tokens, available)->Ok_0.len() == ids.len(),
        forall|i: int|
            0 <= i < ids.len() ==> Some(#[trigger] named(tokens, available)->Ok_0[i])
                == display_with(available, ids[i]),
    decreases ids.len(),
{
    if ids.len() > 0 {
        let t = ids.drop_last();
        let before = tokens.drop_last();
        let n = ids.len() - 1;
        assert forall|i: int| 0 <= i < t.len() implies display_with(
            available,
            #[trigger] t[i],
        ) is Some by {
            assert(t[i] == ids[i]);
        }
        assert forall|i: int| 0 <= i < t.len() implies unsigned(trim(#[trigger] before[i])) == Some(
            t[i],
        ) by {
            assert(before[i] == tokens[i]);
        }
        entries_name_their_displays(before, t, available);
        assert(unsigned(trim(tokens[n])) == Some(ids[n]));
        assert(display_with(available, ids[n]) is Some);
    }
}

proof fn lemma_written(ids: Seq<u32>)
    ensures
        forall|i: int|
            0 <= i < ids.len() ==> unsigned(trim(#[trigger] written_ids(ids)[i])) == Some(ids[i]),
{
    assert forall|i: int| 0 <= i < ids.len() implies unsigned(trim(#[trigger] written_ids(ids)[i]))
        == Some(ids[i]) by {
        let token = decimal(ids[i] as nat);
        decimals_are_digits(ids[i] as nat);
        written_numbers_are_read(0, ids[i]);
        assert('0' <= token[0] <= '9' && '0' <= token[token.len() - 1] <= '9');
        trimming_leaves_the_rest(token);
    }
}

/// A list of ids, commas between them, is a stream for each, in the order of the list: of the
/// first display that has the id.
pub proof fn listed_ids_are_their_displays(
    ids: Seq<u32>,
    width: u32,
    height: u32,
    available: Seq<DisplayInfo>,
)
    requires
        0 < ids.len() < 0xffff,
        forall|i: int| 0 <= i < ids.len() ==> display_with(available, #[trigger] ids[i]) is Some,
    ensures
        ({
            let r = resolved(
                rejoined(written_ids(ids), ','),
                CaptureSource::Sck,
                width,
                height,
                true,
                available,
            );
            &&& r is Ok
            &&& r->Ok_0.len() == ids.len()
            &&& r->Ok_0[0].stream_id == 0
            &&& forall|i: int| 0 < i < ids.len() ==> (#[trigger] r->Ok_0[i]).stream_id == i + 1
            &&& forall|i: int|
                0 <= i < ids.len() ==> shows_display(
                    #[trigger] r->Ok_0[i],
                    display_with(available, ids[i])->0,
                    r->Ok_0[i].stream_id as int,
                )
            &&& forall|i: int| 0 <= i < ids.len() ==> (#[trigger] r->Ok_0[i]).display == Some(ids[i])
        }),
{
    let parts = written_ids(ids);
    let text = rejoined(parts, ',');
    assert forall|i: int| 0 <= i < parts.len() implies without(#[trigger] parts[i], ',') by {
        decimals_are_digits(ids[i] as nat);
    }
    lemma_split_rejoined(parts, ',');
    lemma_written(ids);
    entries_name_their_displays(parts, ids, available);
    reveal_strlit("all");
    reveal_strlit("main");
    decimals_are_digits(ids[0] as nat);
    assert(parts[0] == decimal(ids[0] as nat));
    assert(text[0] == parts[0][0]);
    assert("all"@[0] == 'a' && "main"@[0] == 'm');
    assert forall|i: int| 0 <= i < ids.len() implies display_with(available, ids[i])->0.id
        == #[trigger] ids[i] by {
        display_is_found_by_id(available, ids[i]);
    }
}

/// Several displays are refused on a host that cannot show them, and with a source that does not
/// show displays; and a list that names a display that is not there is refused.
pub proof fn displays_are_refused(
    displays: Seq<char>,
    source: CaptureSource,
    width: u32,
    height: u32,
    supported: bool,
    available: Seq<DisplayInfo>,
    i: int,
)
    requires
        displays != "main"@,
    ensures
        !supported || !(source is Sck) ==> resolved(
            displays,
            source,
            width,
            height,
            supported,
            available,
        ) is Err,
        available.len() == 0 ==> resolved(
            displays,
            source,
            width,
            height,
            supported,
            available,
        ) is Err,
        displays != "all"@ && 0 <= i < split(displays, ',').len() && match unsigned(
            trim(split(displays, ',')[i]),
        ) {
            None => true,
            Some(id) => display_with(available, id) is None,
        } ==> resolved(displays, source, width, height, supported, available) is Err,
{
    crate::laws::text::split_parts_rejoin(displays, ',');
    let tokens = split(displays, ',');
    if 0 <= i < tokens.len() && match unsigned(trim(tokens[i])) {
        None => true,
        Some(id) => display_with(available, id) is None,
    } {
        lemma_named_refuses(tokens, available, i);
    }
    if available.len() == 0 {
        assert(match unsigned(trim(tokens[0])) {
            None => true,
            Some(id) => display_with(available, id) is None,
        });
        lemma_named_refuses(tokens, available, 0);
    }
}

proof fn lemma_named_refuses(tokens: Seq<Seq<char>>, available: Seq<DisplayInfo>, i: int)
    requires
        0 <= i < tokens.len(),
        match unsigned(trim(tokens[i])) {
            None => true,
            Some(id) => display_with(available, id) is None,
        },
    ensures
        named(tokens, available) is Err,
    decreases tokens.len(),
{
    if i < tokens.len() - 1 {
        assert(tokens.drop_last()[i] == tokens[i]);
        lemma_named_refuses(tokens.drop_last(), available, i);
    }
}

/// What is offered beyond the primary stream is every other one, in order, as it is.
pub proof fn every_other_stream_is_offered(primary: StreamSpec, others: Seq<StreamSpec>, i: int)
    requires
        0 <= i < others.len(),
    ensures
        ({
            let offered = extras_of(seq![primary] + others);
            &&& offered.len() == others.len()
            &&& offered[i].stream_id == others[i].stream_id
            &&& offered[i].params == others[i].params
            &&& offered[i].x == others[i].x
            &&& offered[i].y == others[i].y
        }),
{
    assert((seq![primary] + others)[i + 1] == others[i]);
}

/// What a session says of a stream is what the stream is.
pub proof fn session_says_what_the_stream_is(s: StreamSpec)
    ensures
        stream_config(s).stream_id == s.stream_id,
        stream_config(s).params == s.params,
        stream_config(s).x == s.x,
        stream_config(s).y == s.y,
{
}

} // verus!
