//! Occurrences within one buffer: a smart-case regex search over the
//! buffer's text in memory, and the events it streams (one hit per
//! matched line, the buffer's group count, then the end of the search).

use crate::search::rg::{trim_line_end, SearchEvent, StreamSink};
use crate::text::utf8_lossy;
use grep_regex::RegexMatcherBuilder;
use grep_searcher::sinks::Bytes;
use grep_searcher::{BinaryDetection, SearcherBuilder};
use vstd::prelude::*;

verus! {

/// The matched lines (1-based line number, bytes with their terminator)
/// of a smart-case regex search for `pattern` over `text`, with binary
/// detection quitting at a NUL byte; or the message of the error that
/// building the matcher for `pattern` gives.
pub uninterp spec fn occur_matches(pattern: Seq<char>, text: Seq<u8>) -> Result<
    Seq<(u64, Seq<u8>)>,
    Seq<char>,
>;

/// The matched lines as plain values.
pub open spec fn matches_view(v: Seq<(u64, Vec<u8>)>) -> Seq<(u64, Seq<u8>)> {
    v.map_values(|m: (u64, Vec<u8>)| (m.0, m.1@))
}

/// Keep one matched line and go on searching.
fn record_match(found: &mut Vec<(u64, Vec<u8>)>, line_no: u64, line: &[u8]) -> (go_on: bool)
    ensures
        matches_view(final(found)@) == matches_view(old(found)@).push((line_no, line@)),
        go_on,
{
    let bytes = vstd::slice::slice_to_vec(line);
    found.push((line_no, bytes));
    proof {
        assert(matches_view(found@) =~= matches_view(old(found)@).push((line_no, line@)));
    }
    true
}

/// grep-regex's `RegexMatcherBuilder` (smart case) and grep-searcher's
/// `Searcher::search_slice` (line numbers on, binary detection quitting
/// at NUL): the contract names the matched lines, or the matcher build
/// error's message, as `occur_matches` of the pattern and the bytes. A
/// failure of the search itself keeps the lines matched before it.
#[verifier::external_body]
fn regex_line_matches(pattern: &str, text: &[u8]) -> (r: Result<Vec<(u64, Vec<u8>)>, String>)
    ensures
        match r {
            Ok(v) => occur_matches(pattern@, text@) == Ok::<Seq<(u64, Seq<u8>)>, Seq<char>>(
                matches_view(v@),
            ),
            Err(e) => occur_matches(pattern@, text@) == Err::<Seq<(u64, Seq<u8>)>, Seq<char>>(e@),
        },
{
    let matcher = match RegexMatcherBuilder::new().case_smart(true).build(pattern) {
        Ok(m) => m,
        Err(e) => return Err(e.to_string()),
    };
    let mut searcher = SearcherBuilder::new().line_number(true).binary_detection(
        BinaryDetection::quit(b'\0'),
    ).build();
    let mut found = Vec::new();
    let _ = searcher.search_slice(&matcher, text, Bytes(|n, line| Ok(record_match(&mut found, n, line))));
    Ok(found)
}

/// The lines of `text` that match `pattern` (a regex, smart case), in
/// order, each with its 1-based line number; or the message of the error
/// for a pattern that is no valid regex.
pub fn occur_lines(pattern: &str, text: &str) -> (r: Result<Vec<(u64, Vec<u8>)>, String>)
    ensures
        match r {
            Ok(v) => occur_matches(pattern@, vstd::utf8::encode_utf8(text@)) == Ok::<
                Seq<(u64, Seq<u8>)>,
                Seq<char>,
            >(matches_view(v@)),
            Err(e) => occur_matches(pattern@, vstd::utf8::encode_utf8(text@)) == Err::<
                Seq<(u64, Seq<u8>)>,
                Seq<char>,
            >(e@),
        },
{
    regex_line_matches(pattern, text.as_bytes())
}

/// Whether `e` is the hit for matched line `m` of the group `file` in job
/// `g`: the line number, no column (a regex search), and the line's text
/// decoded lossily without its terminator.
pub open spec fn is_occur_hit(e: SearchEvent, file: Seq<char>, m: (u64, Vec<u8>), g: usize) -> bool {
    e matches SearchEvent::Hit { file: f, line_no, col, line, generation } && f@ == file && line_no
        == m.0 && col is None && line@ == trim_line_end(utf8_lossy(m.1@)) && generation
        == g
}

/// The events an occur search streams for the buffer group
/// `display_name` in job `generation`, from what `occur_lines` found: the
/// error alone when the pattern is no valid regex; otherwise a hit per
/// matched line (none once `cancelled`), the group's final count, and the
/// end of the search.
pub fn occur_events(
    display_name: String,
    found: Result<Vec<(u64, Vec<u8>)>, String>,
    cancelled: bool,
    generation: usize,
) -> (ev: Vec<SearchEvent>)
    ensures
        match found {
            Err(msg) => ev@.len() == 1 && (ev@[0] matches SearchEvent::Error { message, generation: g }
                && message@ == msg@ && g == generation),
            Ok(ms) => {
                let n: int = if cancelled {
                    0
                } else {
                    ms@.len() as int
                };
                &&& ev@.len() == n + 2
                &&& forall|i: int| 0 <= i < n ==> is_occur_hit(#[trigger] ev@[i], display_name@, ms@[i], generation)
                &&& ev@[n] matches SearchEvent::FileDone { file, hits, generation: g } && file@
                    == display_name@ && hits == n && g == generation
                &&& ev@[n + 1] matches SearchEvent::Finished { cancelled: c, generation: g } && c
                    == cancelled && g == generation
            },
        },
{
    match found {
        Err(message) => {
            let mut ev: Vec<SearchEvent> = Vec::new();
            ev.push(SearchEvent::Error { message, generation });
            ev
        },
        Ok(ms) => {
            let ghost name = display_name@;
            let mut sink = StreamSink {
                file: display_name,
                gen_id: generation,
                literal: None,
                word: false,
                ranges: None,
                hits: 0,
            };
            let mut ev: Vec<SearchEvent> = Vec::new();
            if !cancelled {
                let mut i: usize = 0;
                while i < ms.len()
                    invariant
                        i <= ms@.len(),
                        sink.file@ == name,
                        sink.gen_id == generation,
                        sink.literal is None,
                        !sink.word,
                        sink.ranges is None,
                        sink.hits == i,
                        ev@.len() == i,
                        forall|j: int| 0 <= j < i ==> is_occur_hit(#[trigger] ev@[j], name, ms@[j], generation),
                    decreases ms@.len() - i,
                {
                    let step = sink.matched(false, Some(ms[i].0), 0, ms[i].1.as_slice());
                    match step {
                        Some(s) => {
                            match s.event {
                                Some(e) => {
                                    ev.push(e);
                                },
                                None => {},
                            }
                        },
                        None => {},
                    }
                    i = i + 1;
                }
            }
            ev.push(sink.finish());
            ev.push(SearchEvent::Finished { cancelled, generation });
            ev
        },
    }
}

} // verus!
