//! Prepares a subtitle file (i.e. .srt file) from given text.
//!
//! Each subtitle chunk is allocated a share of the requested total duration
//! proportional to its spoken length: the grapheme count of its alphanumeric
//! characters after abbreviation placeholders are expanded to their full
//! forms.  Times are held in whole milliseconds, so the allocation is exact:
//! the end of chunk `i` is `t_ms * cum(i+1) / cum(n)` where `cum` is the
//! cumulative spoken length, and the last chunk therefore ends exactly at
//! the requested duration.

use crate::placeholder::{built_entries, expand_all, insert_all, replace_all, Placeholders};
use crate::strutil::{alnum_only, dec_rep, keep_alnum, pad2, pad3, u64_to_dec, u64_to_pad2, u64_to_pad3};
use crate::subtitle::{all_chunks, split_into_subtitles, SUBTITLE_MAX_WORD_COUNT, SUBTITLE_MIN_WORD_COUNT};
use crate::unicode::{grapheme_count, grapheme_count_of};
use vstd::arithmetic::div_mod::{lemma_div_is_ordered, lemma_div_multiples_vanish};
use vstd::arithmetic::mul::lemma_mul_inequality;
use vstd::prelude::*;
use vstd::string::StrSliceExecFns;
use vstd::string::StringExecFns;

verus! {

/// Why no SRT document could be produced.
#[derive(Debug, PartialEq, Eq, Structural)]
pub enum SrtError {
    /// The transcript holds no alphanumeric content at all, so there is no
    /// positive spoken length to distribute the requested duration over.
    DegenerateInput,
}

/// One subtitle entry: a 1-based ordinal, the chunk's rendered text, and the
/// start and end of its display interval in milliseconds.
pub struct SrtEntry {
    pub counter: u64,
    pub subtitle: String,
    pub start_ms: u64,
    pub end_ms: u64,
}

/// The spoken length of a text: the number of grapheme clusters among its
/// alphanumeric characters once every placeholder is expanded to the full
/// form of its abbreviation.
pub open spec fn spoken_len(
    entries: Seq<(Seq<char>, Seq<char>, Seq<char>)>,
    text: Seq<char>,
) -> nat {
    grapheme_count_of(keep_alnum(expand_all(entries, text)))
}

/// Determines the grapheme count for the purpose of subtitling.
///
/// Replaces placeholders with the full forms of their abbreviations before
/// the count, and ignores anything that is not alphanumeric.
pub fn get_grapheme_count(text: &str, placeholders: &Placeholders) -> (r: usize)
    requires
        placeholders.wf(),
    ensures
        r as nat == spoken_len(placeholders@, text@),
{
    let text_fullform = placeholders.expand(text);
    let filtered = alnum_only(text_fullform.as_str());
    grapheme_count(filtered.as_str())
}

/// The sum of the first `k` spoken lengths.
pub open spec fn cum_spoken(counts: Seq<nat>, k: int) -> nat
    recommends
        k <= counts.len(),
    decreases k,
{
    if k <= 0 {
        0
    } else {
        cum_spoken(counts, k - 1) + counts[k - 1]
    }
}

/// Cumulative spoken lengths are clamped at this bound before the duration
/// arithmetic, which keeps the fixed-width computation exact; no realistic
/// transcript comes anywhere near it.
pub const SPOKEN_CLAMP: u128 = 0x1000000000000000000000;

/// A cumulative spoken length, clamped.
pub open spec fn clamped(x: nat) -> nat {
    if x > SPOKEN_CLAMP as nat {
        SPOKEN_CLAMP as nat
    } else {
        x
    }
}

/// The start of chunk `i`'s display interval, in milliseconds: the requested
/// duration `t_ms` split proportionally to the cumulative spoken length of
/// the chunks before `i`.  When no chunk has any spoken length, every
/// interval is empty and sits at zero.
pub open spec fn chunk_start_ms(counts: Seq<nat>, t_ms: nat, i: int) -> nat {
    let total = clamped(cum_spoken(counts, counts.len() as int));
    if total == 0 {
        0
    } else {
        t_ms * clamped(cum_spoken(counts, i)) / total
    }
}

/// The end of chunk `i`'s display interval, in milliseconds: the requested
/// duration `t_ms` split proportionally to the cumulative spoken length up
/// to and including chunk `i`.
pub open spec fn chunk_end_ms(counts: Seq<nat>, t_ms: nat, i: int) -> nat {
    let total = clamped(cum_spoken(counts, counts.len() as int));
    if total == 0 {
        0
    } else {
        t_ms * clamped(cum_spoken(counts, i + 1)) / total
    }
}

/// A timecode `00:MM:SS,mmm`.  Minutes are not rolled into the hours field:
/// the hours always read `00` and the minute count may grow past 59, a
/// documented limitation for offsets beyond 59 minutes.
pub open spec fn timecode_of(ms: nat) -> Seq<char> {
    seq!['0', '0', ':'] + pad2(ms / 60000) + seq![':'] + pad2((ms % 60000) / 1000) + seq![',']
        + pad3(ms % 1000)
}

/// One SRT block: ordinal line, timecode line, text line, blank line.
pub open spec fn block_of(counter: nat, start_ms: nat, end_ms: nat, text: Seq<char>) -> Seq<char> {
    dec_rep(counter) + seq!['\n'] + timecode_of(start_ms) + seq![' ', '-', '-', '>', ' ']
        + timecode_of(end_ms) + seq!['\n'] + text + seq!['\n', '\n']
}

/// The SRT document text for the entries of `list` from position `i` on.
pub open spec fn doc_of_entries(list: Seq<SrtEntry>, i: int) -> Seq<char>
    decreases list.len() - i,
{
    if i < 0 || i >= list.len() {
        Seq::empty()
    } else {
        block_of(
            list[i].counter as nat,
            list[i].start_ms as nat,
            list[i].end_ms as nat,
            list[i].subtitle@,
        ) + doc_of_entries(list, i + 1)
    }
}

/// The SRT document rendered from chunk texts and their spoken lengths,
/// from chunk `i` on: chunk `j` gets the ordinal `j + 1` and the display
/// interval from `chunk_start_ms` to `chunk_end_ms`.
pub open spec fn doc_of_chunks(
    texts: Seq<Seq<char>>,
    counts: Seq<nat>,
    t_ms: nat,
    i: int,
) -> Seq<char>
    decreases texts.len() - i,
{
    if i < 0 || i >= texts.len() {
        Seq::empty()
    } else {
        block_of(
            (i + 1) as nat,
            chunk_start_ms(counts, t_ms, i),
            chunk_end_ms(counts, t_ms, i),
            texts[i],
        ) + doc_of_chunks(texts, counts, t_ms, i + 1)
    }
}

/// Whether a transcript is degenerate for an abbreviation table: after
/// placeholder substitution the whole text has spoken length zero, so no
/// duration rate exists.
pub open spec fn srt_degenerate(text: Seq<char>, table: Seq<(Seq<char>, Seq<char>)>) -> bool {
    let entries = built_entries(table, 0);
    spoken_len(entries, insert_all(entries, text)) == 0
}

/// The SRT document for a transcript, a requested length in seconds and an
/// abbreviation table: placeholders are substituted into the text, the text
/// is chunked sentence by sentence, each chunk is timed by its share of the
/// spoken length, the numbered blocks are rendered, and placeholders are
/// replaced back by their abbreviations in the assembled document.
pub open spec fn srt_content(text: Seq<char>, secs: nat, table: Seq<(Seq<char>, Seq<char>)>) -> Seq<
    char,
> {
    let entries = built_entries(table, 0);
    let with_placeholders = insert_all(entries, text);
    let chunks = all_chunks(
        with_placeholders,
        SUBTITLE_MAX_WORD_COUNT as nat,
        SUBTITLE_MIN_WORD_COUNT as nat,
    );
    let counts = chunks.map_values(|c: Seq<char>| spoken_len(entries, c));
    replace_all(entries, doc_of_chunks(chunks, counts, secs * 1000, 0))
}

/// Renders a display offset in milliseconds as an SRT timecode.
pub fn format_timecode(ms: u64) -> (r: String)
    ensures
        r@ == timecode_of(ms as nat),
{
    let minutes = ms / 60000;
    let seconds = (ms % 60000) / 1000;
    let millis = ms % 1000;
    let mut r = String::from_str("00:");
    proof {
        reveal_strlit("00:");
        assert("00:"@ =~= seq!['0', '0', ':']);
    }
    let part_min = u64_to_pad2(minutes);
    r.append(part_min.as_str());
    r.append(":");
    proof {
        reveal_strlit(":");
        assert(":"@ =~= seq![':']);
    }
    let part_sec = u64_to_pad2(seconds);
    r.append(part_sec.as_str());
    r.append(",");
    proof {
        reveal_strlit(",");
        assert(","@ =~= seq![',']);
    }
    let part_ms = u64_to_pad3(millis);
    r.append(part_ms.as_str());
    proof {
        assert(r@ =~= timecode_of(ms as nat));
    }
    r
}

/// Prints an SRT file into a *string*.
///
/// The SubRip layout: for each entry a line with its ordinal, a line with
/// the start and end timecodes, the subtitle text, and a blank line.
#[verifier::rlimit(60)]
fn srt_entries_to_str(srt_entry_list: &Vec<SrtEntry>) -> (r: String)
    ensures
        r@ == doc_of_entries(srt_entry_list@, 0),
{
    let mut srt_content = String::new();
    let mut i: usize = 0;
    while i < srt_entry_list.len()
        invariant
            i <= srt_entry_list@.len(),
            doc_of_entries(srt_entry_list@, 0) == srt_content@ + doc_of_entries(
                srt_entry_list@,
                i as int,
            ),
        decreases srt_entry_list@.len() - i,
    {
        let ghost prev = srt_content@;
        let entry = &srt_entry_list[i];
        let counter_str = u64_to_dec(entry.counter);
        srt_content.append(counter_str.as_str());
        srt_content.append("\n");
        let timecode_start = format_timecode(entry.start_ms);
        srt_content.append(timecode_start.as_str());
        srt_content.append(" --> ");
        let timecode_end = format_timecode(entry.end_ms);
        srt_content.append(timecode_end.as_str());
        srt_content.append("\n");
        srt_content.append(entry.subtitle.as_str());
        srt_content.append("\n\n");
        proof {
            reveal_strlit("\n");
            reveal_strlit(" --> ");
            reveal_strlit("\n\n");
            assert("\n"@ =~= seq!['\n']);
            assert(" --> "@ =~= seq![' ', '-', '-', '>', ' ']);
            assert("\n\n"@ =~= seq!['\n', '\n']);
            assert(srt_content@ =~= prev + block_of(
                entry.counter as nat,
                entry.start_ms as nat,
                entry.end_ms as nat,
                entry.subtitle@,
            ));
            assert(prev + (block_of(
                entry.counter as nat,
                entry.start_ms as nat,
                entry.end_ms as nat,
                entry.subtitle@,
            ) + doc_of_entries(srt_entry_list@, i + 1)) =~= srt_content@ + doc_of_entries(
                srt_entry_list@,
                i + 1,
            ));
        }
        i = i + 1;
    }
    proof {
        assert(srt_content@ + doc_of_entries(srt_entry_list@, srt_entry_list@.len() as int)
            =~= srt_content@);
    }
    srt_content
}

/// The proportional end of an interval: `t_ms * cum / total`, exact in
/// 128-bit arithmetic, never past `t_ms`.
fn alloc_end_ms(t_ms: u64, cum: u128, total: u128) -> (r: u64)
    requires
        t_ms <= 0x40000000000,
        cum <= total,
        total > 0,
        cum <= SPOKEN_CLAMP,
    ensures
        r as nat == (t_ms as nat) * (cum as nat) / (total as nat),
        r <= t_ms,
{
    proof {
        lemma_mul_inequality(cum as int, SPOKEN_CLAMP as int, t_ms as int);
        assert((cum as int) * (t_ms as int) == (t_ms as int) * (cum as int)) by (nonlinear_arith);
        assert((SPOKEN_CLAMP as int) * (t_ms as int) <= (SPOKEN_CLAMP as int) * 0x40000000000)
            by (nonlinear_arith)
            requires
                t_ms <= 0x40000000000,
        ;
        lemma_mul_inequality(cum as int, total as int, t_ms as int);
        lemma_div_is_ordered((t_ms as int) * (cum as int), (t_ms as int) * (total as int), total as int);
        lemma_div_multiples_vanish(t_ms as int, total as int);
        assert((cum as int) * (t_ms as int) == (t_ms as int) * (cum as int)) by (nonlinear_arith);
        assert((total as int) * (t_ms as int) == (t_ms as int) * (total as int))
            by (nonlinear_arith);
    }
    let wide = (t_ms as u128) * cum / total;
    wide as u64
}

/// The cumulative spoken length never shrinks as more chunks are taken.
proof fn lemma_cum_spoken_mono(counts: Seq<nat>, k1: int, k2: int)
    requires
        k1 <= k2,
    ensures
        cum_spoken(counts, k1) <= cum_spoken(counts, k2),
    decreases k2 - k1,
{
    if k1 < k2 {
        lemma_cum_spoken_mono(counts, k1, k2 - 1);
    }
}

/// The display intervals tile the requested duration: the first chunk
/// starts at zero, every later chunk starts exactly where its predecessor
/// ends, no interval runs backwards, and when the chunks have any spoken
/// length at all the last chunk ends exactly at the requested duration --
/// so the durations sum to the requested duration exactly.
pub proof fn lemma_timing_tiles(counts: Seq<nat>, t_ms: nat)
    ensures
        counts.len() > 0 ==> chunk_start_ms(counts, t_ms, 0) == 0,
        forall|i: int|
            0 < i < counts.len() ==> #[trigger] chunk_start_ms(counts, t_ms, i) == chunk_end_ms(
                counts,
                t_ms,
                i - 1,
            ),
        forall|i: int|
            0 <= i < counts.len() ==> #[trigger] chunk_start_ms(counts, t_ms, i) <= chunk_end_ms(
                counts,
                t_ms,
                i,
            ),
        counts.len() > 0 && cum_spoken(counts, counts.len() as int) > 0 ==> chunk_end_ms(
            counts,
            t_ms,
            counts.len() - 1,
        ) == t_ms,
{
    let n = counts.len() as int;
    let total = clamped(cum_spoken(counts, n));
    if total > 0 {
        assert(cum_spoken(counts, 0) == 0);
        assert(t_ms * clamped(0) == 0) by (nonlinear_arith);
        assert(0int / (total as int) == 0) by {
            vstd::arithmetic::div_mod::lemma_div_basics_1(total as int);
        }
        assert forall|i: int|
            0 <= i < counts.len() implies #[trigger] chunk_start_ms(counts, t_ms, i)
            <= chunk_end_ms(counts, t_ms, i) by {
            lemma_cum_spoken_mono(counts, i, i + 1);
            let c1 = clamped(cum_spoken(counts, i));
            let c2 = clamped(cum_spoken(counts, i + 1));
            lemma_mul_inequality(c1 as int, c2 as int, t_ms as int);
            assert((c1 as int) * (t_ms as int) == (t_ms as int) * (c1 as int))
                by (nonlinear_arith);
            assert((c2 as int) * (t_ms as int) == (t_ms as int) * (c2 as int))
                by (nonlinear_arith);
            lemma_div_is_ordered((t_ms as int) * (c1 as int), (t_ms as int) * (c2 as int), total as int);
        }
        if counts.len() > 0 && cum_spoken(counts, n) > 0 {
            lemma_div_multiples_vanish(t_ms as int, total as int);
            assert((total as int) * (t_ms as int) == (t_ms as int) * (total as int))
                by (nonlinear_arith);
        }
    }
}

/// The sum of the display durations of chunks `0 .. k`.
pub open spec fn durations_total_ms(counts: Seq<nat>, t_ms: nat, k: int) -> int
    decreases k,
{
    if k <= 0 {
        0
    } else {
        durations_total_ms(counts, t_ms, k - 1) + (chunk_end_ms(counts, t_ms, k - 1)
            - chunk_start_ms(counts, t_ms, k - 1))
    }
}

proof fn lemma_durations_prefix(counts: Seq<nat>, t_ms: nat, k: int)
    requires
        0 <= k <= counts.len(),
    ensures
        durations_total_ms(counts, t_ms, k) == if k == 0 {
            0
        } else {
            chunk_end_ms(counts, t_ms, k - 1) as int
        },
    decreases k,
{
    if k > 0 {
        lemma_durations_prefix(counts, t_ms, k - 1);
        if k == 1 {
            let total = clamped(cum_spoken(counts, counts.len() as int));
            if total > 0 {
                assert(cum_spoken(counts, 0) == 0);
                assert(t_ms * clamped(0) == 0) by (nonlinear_arith);
                assert(0int / (total as int) == 0) by {
                    vstd::arithmetic::div_mod::lemma_div_basics_1(total as int);
                }
            }
            assert(chunk_start_ms(counts, t_ms, 0) == 0);
        }
    }
}

/// The display durations sum exactly to the requested length: as soon as
/// the chunks hold any spoken content at all, the durations of all chunks
/// add up to `t_ms` with no rounding loss.
pub proof fn lemma_durations_sum_to_total(counts: Seq<nat>, t_ms: nat)
    requires
        counts.len() > 0,
        cum_spoken(counts, counts.len() as int) > 0,
    ensures
        durations_total_ms(counts, t_ms, counts.len() as int) == t_ms,
{
    lemma_timing_tiles(counts, t_ms);
    lemma_durations_prefix(counts, t_ms, counts.len() as int);
}

proof fn lemma_doc_entries_matches_chunks(
    list: Seq<SrtEntry>,
    texts: Seq<Seq<char>>,
    counts: Seq<nat>,
    t_ms: nat,
    i: int,
)
    requires
        list.len() == texts.len(),
        counts.len() == texts.len(),
        forall|j: int|
            0 <= j < list.len() ==> (#[trigger] list[j]).counter as nat == j + 1
                && list[j].start_ms as nat == chunk_start_ms(counts, t_ms, j) && list[j].end_ms
                as nat == chunk_end_ms(counts, t_ms, j) && list[j].subtitle@ == texts[j],
        0 <= i,
    ensures
        doc_of_entries(list, i) == doc_of_chunks(texts, counts, t_ms, i),
    decreases list.len() - i,
{
    if i < list.len() {
        lemma_doc_entries_matches_chunks(list, texts, counts, t_ms, i + 1);
    }
}

/// Plain text to SRT content.
///
/// Given a long blob of text, turns it into the content of an SRT file that
/// spreads the text over the requested number of seconds.  Fails exactly
/// when the transcript holds no alphanumeric content at all.
pub fn prepare_srt_content(
    text: &str,
    length_in_seconds: u32,
    abbr_map: &Vec<(String, String)>,
) -> (r: Result<String, SrtError>)
    ensures
        match r {
            Ok(out) => !srt_degenerate(text@, abbr_map.deep_view()) && out@ == srt_content(
                text@,
                length_in_seconds as nat,
                abbr_map.deep_view(),
            ),
            Err(e) => srt_degenerate(text@, abbr_map.deep_view()) && e == SrtError::DegenerateInput,
        },
{
    let ghost table = abbr_map.deep_view();
    let placeholders = Placeholders::new(abbr_map);
    let ghost entries = placeholders@;
    let text_with_placeholders = placeholders.insert(text);
    let ghost tp = text_with_placeholders@;

    let total_grapheme_count = get_grapheme_count(text_with_placeholders.as_str(), &placeholders);
    if total_grapheme_count == 0 {
        return Err(SrtError::DegenerateInput);
    }

    let subtitle_list = split_into_subtitles(text_with_placeholders.as_str());
    let ghost chunks = subtitle_list.deep_view();
    let ghost counts_n = chunks.map_values(|c: Seq<char>| spoken_len(entries, c));

    // The spoken length of each chunk, in chunk order.
    let mut counts: Vec<usize> = Vec::new();
    let mut i: usize = 0;
    while i < subtitle_list.len()
        invariant
            i <= subtitle_list@.len(),
            counts@.len() == i as int,
            placeholders.wf(),
            entries == placeholders@,
            chunks == subtitle_list.deep_view(),
            counts_n == chunks.map_values(|c: Seq<char>| spoken_len(entries, c)),
            forall|j: int| 0 <= j < i ==> (#[trigger] counts@[j]) as nat == counts_n[j],
        decreases subtitle_list@.len() - i,
    {
        proof {
            assert(chunks[i as int] == subtitle_list@[i as int]@);
        }
        let c = get_grapheme_count(subtitle_list[i].as_str(), &placeholders);
        counts.push(c);
        i = i + 1;
    }

    let t_ms: u64 = (length_in_seconds as u64) * 1000;

    // The clamped total spoken length over all chunks.
    let mut total_spoken: u128 = 0;
    let mut i: usize = 0;
    while i < counts.len()
        invariant
            i <= counts@.len(),
            counts@.len() == counts_n.len(),
            forall|j: int| 0 <= j < counts@.len() ==> (#[trigger] counts@[j]) as nat == counts_n[j],
            total_spoken as nat == clamped(cum_spoken(counts_n, i as int)),
        decreases counts@.len() - i,
    {
        let c = counts[i];
        let wide = total_spoken + (c as u128);
        total_spoken = if wide > SPOKEN_CLAMP {
            SPOKEN_CLAMP
        } else {
            wide
        };
        i = i + 1;
    }

    // Build the timed entries.
    let n = subtitle_list.len();
    let mut srt_entry_list: Vec<SrtEntry> = Vec::new();
    let mut cum: u128 = 0;
    let mut last_subtitle_end: u64 = 0;
    let mut i: usize = 0;
    while i < n
        invariant
            i <= n,
            n == subtitle_list@.len(),
            counts@.len() == n as int,
            chunks == subtitle_list.deep_view(),
            counts_n.len() == n as int,
            forall|j: int| 0 <= j < counts@.len() ==> (#[trigger] counts@[j]) as nat == counts_n[j],
            total_spoken as nat == clamped(cum_spoken(counts_n, counts_n.len() as int)),
            t_ms <= 0x40000000000,
            cum as nat == clamped(cum_spoken(counts_n, i as int)),
            last_subtitle_end as nat == chunk_start_ms(counts_n, t_ms as nat, i as int),
            srt_entry_list@.len() == i as int,
            forall|j: int|
                0 <= j < i ==> (#[trigger] srt_entry_list@[j]).counter as nat == j + 1
                    && srt_entry_list@[j].start_ms as nat == chunk_start_ms(counts_n, t_ms as nat, j)
                    && srt_entry_list@[j].end_ms as nat == chunk_end_ms(counts_n, t_ms as nat, j)
                    && srt_entry_list@[j].subtitle@ == chunks[j],
        decreases n - i,
    {
        proof {
            assert(chunks[i as int] == subtitle_list@[i as int]@);
            lemma_cum_spoken_mono(counts_n, i as int, counts_n.len() as int);
            lemma_cum_spoken_mono(counts_n, i + 1, counts_n.len() as int);
        }
        let subtitle = subtitle_list[i].clone();
        let c = counts[i];
        let wide = cum + (c as u128);
        let new_cum = if wide > SPOKEN_CLAMP {
            SPOKEN_CLAMP
        } else {
            wide
        };
        proof {
            assert(new_cum as nat == clamped(cum_spoken(counts_n, i + 1)));
        }
        let end_ms: u64 = if total_spoken == 0 {
            0
        } else {
            alloc_end_ms(t_ms, new_cum, total_spoken)
        };
        let entry = SrtEntry {
            counter: (i as u64) + 1,
            subtitle,
            start_ms: last_subtitle_end,
            end_ms,
        };
        srt_entry_list.push(entry);
        last_subtitle_end = end_ms;
        cum = new_cum;
        i = i + 1;
    }

    let srt_content_w_placeholders = srt_entries_to_str(&srt_entry_list);
    proof {
        lemma_doc_entries_matches_chunks(
            srt_entry_list@,
            chunks,
            counts_n,
            t_ms as nat,
            0,
        );
    }
    let srt_output = placeholders.replace(srt_content_w_placeholders.as_str());
    Ok(srt_output)
}

} // verus!
