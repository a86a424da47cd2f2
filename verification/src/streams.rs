//! Which video streams a host serves.

use vstd::prelude::*;
use vstd::string::{StrSliceExecFns, StringExecFns};
use crate::media::{CaptureSource, EncoderKind};
use crate::session::{CODEC_HEVC, MediaParams, StreamConfig};
use crate::text::{
    chars_of, decimal, find_char, lemma_find, push_decimal, read_unsigned, same_text, split,
    trim, trim_bounds, unsigned,
};

verus! {

broadcast use vstd::std_specs::vec::group_vec_axioms;

/// One display that can be captured.
#[derive(Clone, Copy, Debug, PartialEq, Eq)]
pub struct DisplayInfo {
    /// The display's id, stable while it stays connected.
    pub id: u32,
    /// Native width in pixels.
    pub width: u32,
    /// Native height in pixels.
    pub height: u32,
    /// Left edge in the host's global layout (main display at the origin).
    pub x: i32,
    /// Top edge in the host's global layout.
    pub y: i32,
}

/// One video stream to serve: its protocol side and its capture side.
#[derive(Clone, Copy, Debug, PartialEq)]
pub struct StreamSpec {
    /// Datagram stream_id.
    pub stream_id: u16,
    /// Media parameters.
    pub params: MediaParams,
    /// Frame source.
    pub source: CaptureSource,
    /// The display to capture, where the source takes one.
    pub display: Option<u32>,
    /// Left edge of the display in the host's global layout.
    pub x: i32,
    /// Top edge of the display in the host's global layout.
    pub y: i32,
}

/// Immutable settings handed to each connection.
#[derive(Debug)]
pub struct HostCfg {
    /// Host display name.
    pub name: String,
    /// The streams to serve; the first is the primary one.
    pub streams: Vec<StreamSpec>,
    /// HEVC encoder.
    pub encoder: EncoderKind,
    /// Datagram-loss injection percentage (0 = none).
    pub drop_percent: u32,
}

impl Clone for HostCfg {
    fn clone(&self) -> (r: Self)
        ensures
            r.name@ == self.name@,
            r.streams@ == self.streams@,
            r.encoder == self.encoder,
            r.drop_percent == self.drop_percent,
    {
        let streams: Vec<StreamSpec> = self.streams.clone();
        assert(streams@ =~= self.streams@);
        HostCfg {
            name: self.name.clone(),
            streams,
            encoder: self.encoder,
            drop_percent: self.drop_percent,
        }
    }
}

/// The default parameters at a given size.
pub open spec fn params_at(width: u32, height: u32) -> MediaParams {
    MediaParams {
        codec: CODEC_HEVC,
        width: width as u64,
        height: height as u64,
        refresh: 72,
        audio: 0,
        bitrate_kbps: 60_000,
    }
}

/// The default parameters at a given size.
pub fn sized_params(width: u32, height: u32) -> (r: MediaParams)
    ensures
        r == params_at(width, height),
{
    let base = MediaParams::default();
    MediaParams { width: width as u64, height: height as u64, ..base }
}

/// The stream of display number `i`: stream 0 for the first, then 2, 3, .. (1 is audio).
pub open spec fn stream_number(i: int) -> u16 {
    if i == 0 {
        0
    } else {
        ((i + 1) % 0x1_0000) as u16
    }
}

/// The stream that serves display number `i`, at its native size.
pub open spec fn display_stream(i: int, d: DisplayInfo) -> StreamSpec {
    StreamSpec {
        stream_id: stream_number(i),
        params: params_at(d.width, d.height),
        source: CaptureSource::Sck,
        display: Some(d.id),
        x: d.x,
        y: d.y,
    }
}

/// The first display with the id, if there is one.
pub open spec fn display_with(available: Seq<DisplayInfo>, id: u32) -> Option<DisplayInfo>
    decreases available.len(),
{
    if available.len() == 0 {
        None
    } else if available.first().id == id {
        Some(available.first())
    } else {
        display_with(available.drop_first(), id)
    }
}

/// The displays that a list of ids names, or what is wrong with the first bad one.
pub open spec fn named(
    tokens: Seq<Seq<char>>,
    available: Seq<DisplayInfo>,
) -> core::result::Result<Seq<DisplayInfo>, Seq<char>>
    decreases tokens.len(),
{
    if tokens.len() == 0 {
        Ok(Seq::empty())
    } else {
        match named(tokens.drop_last(), available) {
            Err(e) => Err(e),
            Ok(list) => match unsigned(trim(tokens.last())) {
                None => Err(
                    "--displays: '"@ + tokens.last()
                        + "' is not 'main', 'all', or a numeric display id"@,
                ),
                Some(id) => match display_with(available, id) {
                    None => Err(
                        "--displays: display id "@ + decimal(id as nat)
                            + " is not connected (see the list-displays example)"@,
                    ),
                    Some(d) => Ok(list.push(d)),
                },
            },
        }
    }
}

/// The streams that a choice of displays asks for. `main` is one stream of the given source
/// and size; `all`, or a comma-separated list of ids, is one stream per display, which only
/// some hosts support and only one source can capture.
pub open spec fn resolved(
    displays: Seq<char>,
    source: CaptureSource,
    width: u32,
    height: u32,
    supported: bool,
    available: Seq<DisplayInfo>,
) -> core::result::Result<Seq<StreamSpec>, Seq<char>> {
    if displays == "main"@ {
        Ok(
            seq![
                StreamSpec {
                    stream_id: 0,
                    params: params_at(width, height),
                    source,
                    display: None,
                    x: 0,
                    y: 0,
                },
            ],
        )
    } else if !supported {
        Err(
            "--displays: only 'main' is supported on this platform (M6.2 multi-display is macOS/SCK)"@,
        )
    } else if !(source is Sck) {
        Err(
            "--displays "@ + displays
                + " requires --source sck (multi-display captures physical displays)"@,
        )
    } else {
        let chosen = if displays == "all"@ {
            Ok(available)
        } else {
            named(split(displays, ','), available)
        };
        match chosen {
            Err(e) => Err(e),
            Ok(list) => if list.len() == 0 {
                Err("--displays: no displays available to stream"@)
            } else {
                Ok(Seq::new(list.len(), |i: int| display_stream(i, list[i])))
            },
        }
    }
}

/// Whether resolving the streams takes the list of connected displays.
pub fn needs_displays(displays: &str, source: CaptureSource, supported: bool) -> (r: bool)
    ensures
        r == (displays@ != "main"@ && supported && source is Sck),
{
    let chars: Vec<char> = chars_of(displays);
    !same_text(&chars, "main") && supported && source == CaptureSource::Sck
}

/// Look a display up by its id.
pub fn find_display(available: &[DisplayInfo], id: u32) -> (r: Option<DisplayInfo>)
    ensures
        r == display_with(available@, id),
{
    let mut i: usize = 0;
    assert(available@.skip(0) =~= available@);
    while i < available.len()
        invariant
            i <= available@.len(),
            display_with(available@, id) == display_with(available@.skip(i as int), id),
        decreases available@.len() - i,
    {
        let ghost rest = available@.skip(i as int);
        assert(rest.first() == available@[i as int]);
        assert(rest.drop_first() =~= available@.skip(i + 1));
        if available[i].id == id {
            return Some(available[i]);
        }
        i += 1;
    }
    None
}

proof fn lemma_named_rejects(tokens: Seq<Seq<char>>, available: Seq<DisplayInfo>, k: int)
    requires
        0 <= k <= tokens.len(),
        named(tokens.take(k), available) is Err,
    ensures
        named(tokens, available) == named(tokens.take(k), available),
    decreases tokens.len(),
{
    if k < tokens.len() {
        assert(tokens.drop_last().take(k) =~= tokens.take(k));
        lemma_named_rejects(tokens.drop_last(), available, k);
    } else {
        assert(tokens.take(k) =~= tokens);
    }
}

/// The displays that a list of ids names.
fn pick_displays(text: &str, chars: &Vec<char>, available: &[DisplayInfo]) -> (r: core::result::Result<
    Vec<DisplayInfo>,
    String,
>)
    requires
        chars@ == text@,
    ensures
        match named(split(chars@, ','), available@) {
            Ok(list) => r is Ok && r->Ok_0@ == list,
            Err(e) => r is Err && r->Err_0@ == e,
        },
{
    let len: usize = chars.len();
    let ghost s = chars@;
    let ghost all = split(s, ',');
    let mut out: Vec<DisplayInfo> = Vec::new();
    let mut pos: usize = 0;
    let mut more: bool = true;
    let ghost mut n: int = 0;
    assert(s.skip(0) =~= s);
    assert(all.skip(0) =~= all);
    assert(all.take(0) =~= Seq::empty());
    while more
        invariant
            pos <= len,
            len == s.len(),
            s == chars@,
            s == text@,
            all == split(s, ','),
            0 <= n <= all.len(),
            more ==> all.skip(n) == split(s.skip(pos as int), ','),
            !more ==> n == all.len(),
            named(all.take(n), available@) == Ok::<Seq<DisplayInfo>, Seq<char>>(out@),
        decreases len - pos + if more {
            1int
        } else {
            0
        },
    {
        let at: usize = find_char(chars, pos, len, ',');
        let ghost left = s.skip(pos as int);
        let ghost token = s.subrange(pos as int, at as int);
        let ghost tail = all.skip(n);
        proof {
            assert(left =~= s.subrange(pos as int, len as int));
            lemma_find(left, ',');
            if at < len {
                assert(left.take(at - pos) =~= token);
                assert(left.skip(at - pos + 1) =~= s.skip(at + 1));
                assert(tail == seq![token] + split(s.skip(at + 1), ','));
            } else {
                assert(left =~= token);
                assert(tail == seq![token]);
            }
            assert(tail[0] == token);
            assert(n < all.len());
            assert(all[n] == token);
            assert(all.take(n + 1).drop_last() =~= all.take(n));
            assert(all.take(n + 1).last() == token);
        }
        let (a, b) = trim_bounds(chars, pos, at);
        match read_unsigned(chars, a, b) {
            None => {
                let mut e: String = "--displays: '".to_string();
                e.append(text.substring_char(pos, at));
                e.append("' is not 'main', 'all', or a numeric display id");
                proof {
                    lemma_named_rejects(all, available@, n + 1);
                }
                return Err(e);
            },
            Some(id) => match find_display(available, id) {
                None => {
                    let mut e: String = "--displays: display id ".to_string();
                    push_decimal(&mut e, id as u128);
                    e.append(" is not connected (see the list-displays example)");
                    proof {
                        lemma_named_rejects(all, available@, n + 1);
                    }
                    return Err(e);
                },
                Some(d) => {
                    out.push(d);
                },
            },
        }
        proof {
            n = n + 1;
            assert(all.skip(n) =~= tail.skip(1));
        }
        if at < len {
            assert(tail.skip(1) =~= split(s.skip(at + 1), ','));
            pos = at + 1;
        } else {
            assert(tail.skip(1).len() == 0);
            pos = len;
            more = false;
        }
    }
    assert(all.take(n) =~= all);
    Ok(out)
}

/// Resolve a choice of displays into the video streams to serve. `supported` says whether this
/// host can stream several displays, and `available` are the displays that are connected.
pub fn resolve_streams(
    displays: &str,
    source: CaptureSource,
    width: u32,
    height: u32,
    supported: bool,
    available: &[DisplayInfo],
) -> (r: core::result::Result<Vec<StreamSpec>, String>)
    ensures
        match resolved(displays@, source, width, height, supported, available@) {
            Ok(list) => r is Ok && r->Ok_0@ == list,
            Err(e) => r is Err && r->Err_0@ == e,
        },
{
    let chars: Vec<char> = chars_of(displays);
    let mut out: Vec<StreamSpec> = Vec::new();
    if same_text(&chars, "main") {
        out.push(
            StreamSpec {
                stream_id: 0,
                params: sized_params(width, height),
                source,
                display: None,
                x: 0,
                y: 0,
            },
        );
        assert(out@ =~= resolved(
            displays@,
            source,
            width,
            height,
            supported,
            available@,
        )->Ok_0);
        return Ok(out);
    }
    if !supported {
        let e: String =
            "--displays: only 'main' is supported on this platform (M6.2 multi-display is macOS/SCK)".to_string();
        return Err(e);
    }
    if source != CaptureSource::Sck {
        let mut e: String = "--displays ".to_string();
        e.append(displays);
        e.append(" requires --source sck (multi-display captures physical displays)");
        return Err(e);
    }
    let selected: Vec<DisplayInfo> = if same_text(&chars, "all") {
        let mut every: Vec<DisplayInfo> = Vec::new();
        every.extend_from_slice(available);
        assert(every@ =~= available@);
        every
    } else {
        match pick_displays(displays, &chars, available) {
            Ok(list) => list,
            Err(e) => return Err(e),
        }
    };
    if selected.len() == 0 {
        let e: String = "--displays: no displays available to stream".to_string();
        return Err(e);
    }
    let ghost goal = Seq::new(selected@.len(), |i: int| display_stream(i, selected@[i]));
    let mut i: usize = 0;
    while i < selected.len()
        invariant
            i <= selected@.len(),
            goal == Seq::new(selected@.len(), |k: int| display_stream(k, selected@[k])),
            out@ == goal.take(i as int),
        decreases selected@.len() - i,
    {
        let d: DisplayInfo = selected[i];
        let stream_id: u16 = if i == 0 {
            0
        } else {
            ((i % 0x1_0000 + 1) % 0x1_0000) as u16
        };
        out.push(
            StreamSpec {
                stream_id,
                params: sized_params(d.width, d.height),
                source: CaptureSource::Sck,
                display: Some(d.id),
                x: d.x,
                y: d.y,
            },
        );
        proof {
            assert(stream_id == stream_number(i as int));
            assert(out@[i as int] == goal[i as int]);
            assert(goal.take(i + 1) =~= goal.take(i as int).push(goal[i as int]));
            assert(out@ =~= goal.take(i + 1));
        }
        i += 1;
    }
    assert(goal.take(i as int) =~= goal);
    Ok(out)
}

/// Of every choice that can be resolved: there is a first stream, it is stream 0, and (for
/// fewer than 65535 streams) the others are all different, and none is stream 0 or the audio
/// stream 1.
pub proof fn stream_ids_distinct(
    displays: Seq<char>,
    source: CaptureSource,
    width: u32,
    height: u32,
    supported: bool,
    available: Seq<DisplayInfo>,
    i: int,
    j: int,
)
    requires
        resolved(displays, source, width, height, supported, available) is Ok,
        0 <= i < j < resolved(displays, source, width, height, supported, available)->Ok_0.len()
            < 0xffff,
    ensures
        ({
            let list = resolved(displays, source, width, height, supported, available)->Ok_0;
            list[0].stream_id == 0 && list[i].stream_id != list[j].stream_id && list[j].stream_id
                >= 2
        }),
{
}

/// There is always a primary stream.
pub proof fn primary_stream_present(
    displays: Seq<char>,
    source: CaptureSource,
    width: u32,
    height: u32,
    supported: bool,
    available: Seq<DisplayInfo>,
)
    requires
        resolved(displays, source, width, height, supported, available) is Ok,
    ensures
        resolved(displays, source, width, height, supported, available)->Ok_0.len() > 0,
        resolved(displays, source, width, height, supported, available)->Ok_0[0].stream_id == 0,
{
}

/// The protocol side of a stream.
pub open spec fn stream_config(s: StreamSpec) -> StreamConfig {
    StreamConfig { stream_id: s.stream_id, params: s.params, x: s.x, y: s.y }
}

/// The protocol side of the streams beyond the primary one.
pub open spec fn extras_of(streams: Seq<StreamSpec>) -> Seq<StreamConfig> {
    Seq::new((streams.len() - 1) as nat, |i: int| stream_config(streams[i + 1]))
}

/// The protocol side of the streams beyond the primary one: what a session offers to a client
/// that can take several.
pub fn extra_streams(streams: &[StreamSpec]) -> (r: Vec<StreamConfig>)
    requires
        streams@.len() > 0,
    ensures
        r@ == Seq::new((streams@.len() - 1) as nat, |i: int| stream_config(streams@[i + 1])),
        r@ == extras_of(streams@),
{
    let ghost goal = Seq::new((streams@.len() - 1) as nat, |i: int| stream_config(streams@[i + 1]));
    let mut out: Vec<StreamConfig> = Vec::new();
    let mut i: usize = 1;
    while i < streams.len()
        invariant
            1 <= i <= streams@.len(),
            goal == Seq::new(
                (streams@.len() - 1) as nat,
                |k: int| stream_config(streams@[k + 1]),
            ),
            out@ == goal.take(i - 1),
        decreases streams@.len() - i,
    {
        let s: StreamSpec = streams[i];
        out.push(StreamConfig { stream_id: s.stream_id, params: s.params, x: s.x, y: s.y });
        assert(goal.take(i as int) =~= goal.take(i - 1).push(goal[i - 1]));
        i += 1;
    }
    assert(goal.take(i - 1) =~= goal);
    assert(out@ =~= extras_of(streams@));
    out
}

} // verus!
