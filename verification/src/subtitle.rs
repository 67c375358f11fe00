//! Prepares subtitles from given text.
//!
//! A text is split into sentences, each sentence into subtitle chunks of a
//! bounded number of counted words, and an undersized trailing chunk is
//! merged into its predecessor.

use crate::strutil::{trim_spec, trim_str};
use crate::unicode::{
    char_alpha, is_alpha, sentence_slices, sentences_of, word_segments, word_segs_of,
};
use vstd::arithmetic::div_mod::{
    lemma_hoist_over_denominator, lemma_mod_self_0, lemma_mod_sub_multiples_vanish,
    lemma_small_mod,
};
use vstd::prelude::*;
use vstd::seq_lib::lemma_flatten_concat;
use vstd::string::StrSliceExecFns;
use vstd::string::StringExecFns;

verus! {

/// Greatest number of counted words a subtitle chunk may hold.
pub const SUBTITLE_MAX_WORD_COUNT: usize = 10;

/// Fewest counted words the final chunk of a sentence may hold before it is
/// merged into its predecessor.
pub const SUBTITLE_MIN_WORD_COUNT: usize = 4;

/// Whether a word-boundary segment counts as a word: it holds at least one
/// alphabetic character.  Punctuation-only and whitespace-only segments do
/// not count, though their characters stay part of the surrounding chunk.
pub open spec fn seg_has_alpha(seg: Seq<char>) -> bool {
    exists|i: int| 0 <= i < seg.len() && char_alpha(seg[i])
}

fn has_alpha(seg: &str) -> (r: bool)
    ensures
        r == seg_has_alpha(seg@),
{
    let len = seg.unicode_len();
    let mut i: usize = 0;
    while i < len
        invariant
            i <= len,
            len as nat == seg@.len(),
            forall|k: int| 0 <= k < i ==> !char_alpha(seg@[k]),
        decreases len - i,
    {
        if is_alpha(seg.get_char(i)) {
            return true;
        }
        i = i + 1;
    }
    false
}

/// The character offsets, counted from `pos`, at which the word-counting
/// segments of `segs` begin when the segments are laid out one after the
/// other.
pub open spec fn word_offsets(segs: Seq<Seq<char>>, pos: int) -> Seq<int>
    decreases segs.len(),
{
    if segs.len() == 0 {
        Seq::empty()
    } else if seg_has_alpha(segs[0]) {
        seq![pos] + word_offsets(segs.drop_first(), pos + segs[0].len())
    } else {
        word_offsets(segs.drop_first(), pos + segs[0].len())
    }
}

/// Word offsets start at or after `pos`, stay strictly below the end of the
/// laid-out segments, and increase strictly.
proof fn lemma_word_offsets_bounds(segs: Seq<Seq<char>>, pos: int)
    ensures
        forall|j: int|
            0 <= j < word_offsets(segs, pos).len() ==> pos <= #[trigger] word_offsets(segs, pos)[j]
                < pos + segs.flatten().len(),
        forall|j1: int, j2: int|
            0 <= j1 < j2 < word_offsets(segs, pos).len() ==> #[trigger] word_offsets(segs, pos)[j1]
                < #[trigger] word_offsets(segs, pos)[j2],
    decreases segs.len(),
{
    if segs.len() > 0 {
        let first = segs[0];
        let rest = segs.drop_first();
        lemma_word_offsets_bounds(rest, pos + first.len());
        assert(segs.flatten() == first + rest.flatten());
        let off = word_offsets(segs, pos);
        let off_rest = word_offsets(rest, pos + first.len());
        if seg_has_alpha(first) {
            assert(first.len() > 0);
            assert forall|j: int| 0 <= j < off.len() implies pos <= #[trigger] off[j] < pos
                + segs.flatten().len() by {
                if j > 0 {
                    assert(off[j] == off_rest[j - 1]);
                }
            }
            assert forall|j1: int, j2: int| 0 <= j1 < j2 < off.len() implies #[trigger] off[j1]
                < #[trigger] off[j2] by {
                assert(off[j2] == off_rest[j2 - 1]);
                if j1 > 0 {
                    assert(off[j1] == off_rest[j1 - 1]);
                }
            }
        } else {
            assert forall|j: int| 0 <= j < off.len() implies pos <= #[trigger] off[j] < pos
                + segs.flatten().len() by {
                assert(off[j] == off_rest[j]);
            }
        }
    }
}

/// The chunk texts cut from sentence `s` starting at counted word `w`: full
/// chunks of `m` counted words are cut while more than `m` words remain, one
/// final chunk takes the rest of the sentence, and every chunk is trimmed.
pub open spec fn chunks_from(s: Seq<char>, off: Seq<int>, m: nat, w: nat) -> Seq<Seq<char>>
    recommends
        m >= 1,
        w < off.len(),
    decreases off.len() - w,
{
    if w + m < off.len() && m >= 1 {
        seq![trim_spec(s.subrange(off[w as int], off[(w + m) as int]))] + chunks_from(
            s,
            off,
            m,
            (w + m) as nat,
        )
    } else {
        seq![trim_spec(s.subrange(off[w as int], s.len() as int))]
    }
}

/// The subtitle chunks of one sentence, for a greatest chunk size of `m`
/// counted words and a least final-chunk size of `k`: a sentence without
/// counted words yields no chunk; otherwise chunks are cut greedily, and a
/// final chunk of fewer than `k` words (its word count `rem` satisfying
/// `rem != 0`, `rem < k`) is merged into its predecessor with a single
/// separating space.
pub open spec fn sentence_chunks(s: Seq<char>, m: nat, k: nat) -> Seq<Seq<char>>
    recommends
        m >= 1,
{
    let off = word_offsets(word_segs_of(s), 0);
    if off.len() == 0 || m == 0 {
        Seq::empty()
    } else {
        let raw = chunks_from(s, off, m, 0);
        let rem = off.len() % m;
        if rem != 0 && rem < k && raw.len() >= 2 {
            raw.take(raw.len() - 2) + seq![
                raw[raw.len() - 2] + seq![' '] + raw[raw.len() - 1],
            ]
        } else {
            raw
        }
    }
}

/// The subtitle chunks of a whole text, sentence by sentence in order.
pub open spec fn all_chunks(text: Seq<char>, m: nat, k: nat) -> Seq<Seq<char>> {
    sentences_of(text).map_values(|s: Seq<char>| sentence_chunks(s, m, k)).flatten()
}

fn word_offsets_exec(segs: &Vec<&str>, total_len: usize) -> (offsets: Vec<usize>)
    requires
        segs.deep_view().flatten().len() == total_len as nat,
    ensures
        offsets@.map_values(|x: usize| x as int) == word_offsets(segs.deep_view(), 0),
{
    let ghost sdv = segs.deep_view();
    let mut offsets: Vec<usize> = Vec::new();
    let mut pos: usize = 0;
    let mut i: usize = 0;
    proof {
        assert(sdv.skip(0) =~= sdv);
        assert(sdv.take(0) =~= Seq::<Seq<char>>::empty());
        assert(offsets@.map_values(|x: usize| x as int) =~= Seq::<int>::empty());
    }
    while i < segs.len()
        invariant
            i <= segs.len(),
            sdv == segs.deep_view(),
            sdv.flatten().len() == total_len as nat,
            pos as int == sdv.take(i as int).flatten().len(),
            word_offsets(sdv, 0) == offsets@.map_values(|x: usize| x as int) + word_offsets(
                sdv.skip(i as int),
                pos as int,
            ),
        decreases segs.len() - i,
    {
        let ghost suffix = sdv.skip(i as int);
        let ghost done = offsets@.map_values(|x: usize| x as int);
        proof {
            assert(suffix[0] == sdv[i as int]);
            assert(suffix.drop_first() =~= sdv.skip(i + 1));
            assert(sdv[i as int] == segs@[i as int]@);
            assert(sdv.take(i + 1) =~= sdv.take(i as int).push(sdv[i as int]));
            sdv.take(i as int).lemma_flatten_push(sdv[i as int]);
            assert(sdv =~= sdv.take(i + 1) + sdv.skip(i + 1));
            lemma_flatten_concat(sdv.take(i + 1), sdv.skip(i + 1));
        }
        let seg = segs[i];
        let seg_len = seg.unicode_len();
        if has_alpha(seg) {
            offsets.push(pos);
            proof {
                assert(offsets@.map_values(|x: usize| x as int) =~= done + seq![pos as int]);
                assert(done + (seq![pos as int] + word_offsets(sdv.skip(i + 1), pos + seg_len))
                    =~= (done + seq![pos as int]) + word_offsets(
                    sdv.skip(i + 1),
                    pos + seg_len,
                ));
            }
        }
        pos = pos + seg_len;
        i = i + 1;
    }
    proof {
        assert(sdv.skip(segs.len() as int).len() == 0);
        assert(offsets@.map_values(|x: usize| x as int) + word_offsets(
            sdv.skip(segs.len() as int),
            pos as int,
        ) =~= offsets@.map_values(|x: usize| x as int));
    }
    offsets
}

/// Extracts a subtitle from a sentence.
///
/// Extracts the portion of a sentence that forms the subtitle at
/// `subtitle_index`, assuming every subtitle before it holds exactly
/// `subtitle_word_count` counted words, and trims it.
pub fn subtitle_from_index(
    subtitle_index: usize,
    subtitle_word_count: usize,
    sentence: &str,
    char_indices_for_words: &Vec<usize>,
) -> (r: String)
    requires
        subtitle_word_count >= 1,
        (subtitle_index as int + 1) * (subtitle_word_count as int) < char_indices_for_words@.len(),
        forall|j: int|
            0 <= j < char_indices_for_words@.len() ==> (#[trigger] char_indices_for_words@[j])
                as int <= sentence@.len(),
        forall|j1: int, j2: int|
            0 <= j1 <= j2 < char_indices_for_words@.len() ==> #[trigger] char_indices_for_words@[j1]
                <= #[trigger] char_indices_for_words@[j2],
    ensures
        r@ == trim_spec(
            sentence@.subrange(
                char_indices_for_words@[(subtitle_index as int) * (subtitle_word_count as int)] as int,
                char_indices_for_words@[(subtitle_index as int + 1) * (subtitle_word_count as int)] as int,
            ),
        ),
{
    proof {
        assert((subtitle_index as int) * (subtitle_word_count as int) >= 0 && (subtitle_index
            as int) * (subtitle_word_count as int) <= (subtitle_index as int + 1)
            * (subtitle_word_count as int) && subtitle_index as int + 1 <= (subtitle_index as int
            + 1) * (subtitle_word_count as int)) by (nonlinear_arith)
            requires
                subtitle_word_count >= 1,
                subtitle_index >= 0,
        ;
    }
    let word_count = char_indices_for_words.len();
    assert((subtitle_index as int + 1) * (subtitle_word_count as int) < word_count);
    let first_word_index = subtitle_index * subtitle_word_count;
    let next_subtitles_first_word_index = (subtitle_index + 1) * subtitle_word_count;
    let first_char_index = char_indices_for_words[first_word_index];
    let next_char_index = char_indices_for_words[next_subtitles_first_word_index];
    let part = sentence.substring_char(first_char_index, next_char_index);
    trim_str(part)
}

/// Joins the last two subtitles.
///
/// A list with fewer than two subtitles is left unchanged; otherwise the
/// last subtitle is merged into its predecessor with a single separating
/// space.
pub fn adjust_last_subtitle(subtitle_list: &mut Vec<String>)
    ensures
        old(subtitle_list)@.len() < 2 ==> final(subtitle_list)@ == old(subtitle_list)@,
        old(subtitle_list)@.len() >= 2 ==> final(subtitle_list).deep_view() == old(
            subtitle_list,
        ).deep_view().take(old(subtitle_list)@.len() - 2) + seq![
            old(subtitle_list).deep_view()[old(subtitle_list)@.len() - 2] + seq![' '] + old(
                subtitle_list,
            ).deep_view()[old(subtitle_list)@.len() - 1],
        ],
{
    if subtitle_list.len() < 2 {
        return ;
    }
    let last = subtitle_list.pop().unwrap();
    let second_last = subtitle_list.pop().unwrap();
    let mut new_last = second_last;
    new_last.append(" ");
    proof {
        reveal_strlit(" ");
        assert(" "@ =~= seq![' ']);
    }
    new_last.append(last.as_str());
    subtitle_list.push(new_last);
    proof {
        let n = old(subtitle_list)@.len();
        assert(subtitle_list.deep_view() =~= old(subtitle_list).deep_view().take(n - 2) + seq![
            old(subtitle_list).deep_view()[n - 2] + seq![' '] + old(subtitle_list).deep_view()[n
                - 1],
        ]);
    }
}

/// Splits a sentence into subtitles.
pub fn prepare_subtitles_from_sentence(
    sentence: &str,
    subtitle_max_word_count: usize,
    subtitle_min_word_count: usize,
) -> (r: Vec<String>)
    requires
        subtitle_max_word_count >= 1,
    ensures
        r.deep_view() == sentence_chunks(
            sentence@,
            subtitle_max_word_count as nat,
            subtitle_min_word_count as nat,
        ),
{
    let total_len = sentence.unicode_len();
    let segs = word_segments(sentence);
    let word_indices = word_offsets_exec(&segs, total_len);
    let word_count_in_sentence = word_indices.len();
    let ghost off = word_offsets(word_segs_of(sentence@), 0);
    let ghost m = subtitle_max_word_count as nat;

    let mut subtitle_list: Vec<String> = Vec::new();
    if word_count_in_sentence == 0 {
        return subtitle_list;
    }
    proof {
        lemma_word_offsets_bounds(word_segs_of(sentence@), 0);
        let mapped = word_indices@.map_values(|x: usize| x as int);
        assert(forall|j: int| 0 <= j < off.len() ==> (#[trigger] word_indices@[j]) as int == off[j])
            by {
            assert(forall|j: int| 0 <= j < off.len() ==> off[j] == #[trigger] mapped[j]);
        }
    }

    let mut cumulative_word_count: usize = 0;
    let mut subtitle_count: usize = 0;
    while subtitle_max_word_count < word_count_in_sentence - cumulative_word_count
        invariant
            subtitle_max_word_count >= 1,
            word_count_in_sentence == word_indices@.len(),
            off == word_offsets(word_segs_of(sentence@), 0),
            word_indices@.map_values(|x: usize| x as int) == off,
            forall|j: int| 0 <= j < off.len() ==> (#[trigger] word_indices@[j]) as int == off[j],
            forall|j: int| 0 <= j < off.len() ==> 0 <= #[trigger] off[j] <= sentence@.len(),
            forall|j1: int, j2: int|
                0 <= j1 <= j2 < off.len() ==> #[trigger] off[j1] <= #[trigger] off[j2],
            total_len as nat == sentence@.len(),
            cumulative_word_count < word_count_in_sentence,
            subtitle_count <= cumulative_word_count,
            cumulative_word_count as int == (subtitle_count as int) * (subtitle_max_word_count
                as int),
            chunks_from(sentence@, off, m, 0) == subtitle_list.deep_view() + chunks_from(
                sentence@,
                off,
                m,
                cumulative_word_count as nat,
            ),
            m == subtitle_max_word_count as nat,
        decreases word_count_in_sentence - cumulative_word_count,
    {
        let ghost dv = subtitle_list.deep_view();
        proof {
            assert((subtitle_count as int + 1) * (subtitle_max_word_count as int) == (subtitle_count
                as int) * (subtitle_max_word_count as int) + subtitle_max_word_count as int)
                by (nonlinear_arith);
        }
        let subtitle = subtitle_from_index(
            subtitle_count,
            subtitle_max_word_count,
            sentence,
            &word_indices,
        );
        subtitle_list.push(subtitle);
        proof {
            let w = cumulative_word_count as nat;
            assert(chunks_from(sentence@, off, m, w) == seq![
                trim_spec(
                    sentence@.subrange(off[w as int], off[(w + m) as int]),
                ),
            ] + chunks_from(sentence@, off, m, (w + m) as nat));
            assert(subtitle_list.deep_view() =~= dv + seq![subtitle@]);
            assert(dv + (seq![subtitle@] + chunks_from(sentence@, off, m, (w + m) as nat)) =~= (dv
                + seq![subtitle@]) + chunks_from(sentence@, off, m, (w + m) as nat));
        }
        cumulative_word_count = cumulative_word_count + subtitle_max_word_count;
        subtitle_count = subtitle_count + 1;
    }

    // Any remaining subtitle holds no more than subtitle_max_word_count words.
    let ghost dv = subtitle_list.deep_view();
    let last_start = word_indices[cumulative_word_count];
    let part = sentence.substring_char(last_start, total_len);
    let last_subtitle = trim_str(part);
    subtitle_list.push(last_subtitle);
    proof {
        let w = cumulative_word_count as nat;
        assert(chunks_from(sentence@, off, m, w) == seq![
            trim_spec(sentence@.subrange(off[w as int], sentence@.len() as int)),
        ]);
        assert(subtitle_list.deep_view() =~= dv + seq![last_subtitle@]);
    }

    let last_subtitle_word_count = word_count_in_sentence % subtitle_max_word_count;
    if last_subtitle_word_count != 0 && last_subtitle_word_count < subtitle_min_word_count {
        let ghost raw = subtitle_list.deep_view();
        adjust_last_subtitle(&mut subtitle_list);
        proof {
            if raw.len() >= 2 {
                assert(subtitle_list.deep_view() == raw.take(raw.len() - 2) + seq![
                    raw[raw.len() - 2] + seq![' '] + raw[raw.len() - 1],
                ]);
            } else {
                assert(subtitle_list.deep_view() =~= raw);
            }
        }
    }
    subtitle_list
}

/// Splits the entire text into *potential* subtitles.
pub fn split_into_subtitles(file_content: &str) -> (r: Vec<String>)
    ensures
        r.deep_view() == all_chunks(
            file_content@,
            SUBTITLE_MAX_WORD_COUNT as nat,
            SUBTITLE_MIN_WORD_COUNT as nat,
        ),
{
    let sentence_list = sentence_slices(file_content);
    let ghost sents = sentences_of(file_content@);
    let ghost f = |s: Seq<char>|
        sentence_chunks(s, SUBTITLE_MAX_WORD_COUNT as nat, SUBTITLE_MIN_WORD_COUNT as nat);
    let mut subtitle_list: Vec<String> = Vec::new();
    let mut i: usize = 0;
    proof {
        assert(sents.take(0) =~= Seq::<Seq<char>>::empty());
        assert(subtitle_list.deep_view() =~= Seq::<Seq<char>>::empty().map_values(f).flatten());
    }
    while i < sentence_list.len()
        invariant
            i <= sentence_list.len(),
            sents == sentence_list.deep_view(),
            f == (|s: Seq<char>|
                sentence_chunks(s, SUBTITLE_MAX_WORD_COUNT as nat, SUBTITLE_MIN_WORD_COUNT as nat)),
            subtitle_list.deep_view() == sents.take(i as int).map_values(f).flatten(),
        decreases sentence_list.len() - i,
    {
        let ghost dv = subtitle_list.deep_view();
        let sentence = sentence_list[i];
        proof {
            assert(sentence@ == sents[i as int]);
        }
        let mut subtitles_for_a_sentence = prepare_subtitles_from_sentence(
            sentence,
            SUBTITLE_MAX_WORD_COUNT,
            SUBTITLE_MIN_WORD_COUNT,
        );
        let ghost chunk_dv = subtitles_for_a_sentence.deep_view();
        subtitle_list.append(&mut subtitles_for_a_sentence);
        proof {
            assert(subtitle_list.deep_view() =~= dv + chunk_dv);
            assert(sents.take(i + 1) =~= sents.take(i as int).push(sents[i as int]));
            assert(sents.take(i + 1).map_values(f) =~= sents.take(i as int).map_values(f).push(
                f(sents[i as int]),
            ));
            sents.take(i as int).map_values(f).lemma_flatten_push(f(sents[i as int]));
        }
        i = i + 1;
    }
    proof {
        assert(sents.take(sentence_list.len() as int) =~= sents);
    }
    subtitle_list
}

proof fn lemma_chunks_from_len(s: Seq<char>, off: Seq<int>, m: nat, w: nat)
    requires
        m >= 1,
        w < off.len(),
    ensures
        chunks_from(s, off, m, w).len() == (off.len() - w - 1) / (m as int) + 1,
    decreases off.len() - w,
{
    let n = off.len() as int;
    if w + m < off.len() {
        lemma_chunks_from_len(s, off, m, (w + m) as nat);
        lemma_hoist_over_denominator(n - w - m - 1, 1, m);
        assert((n - w - m - 1) + 1 * (m as int) == n - w - 1);
    } else {
        assert(0 <= n - w - 1 < m);
        vstd::arithmetic::div_mod::lemma_basic_div(n - w - 1, m as int);
    }
}

/// The counted-word counts of the chunks cut from a sentence of `n` counted
/// words, starting at word `w`: `m` words for each full chunk, the rest for
/// the final chunk.  This mirrors `chunks_from` word for word.
pub open spec fn chunk_word_counts(n: nat, m: nat, w: nat) -> Seq<nat>
    recommends
        m >= 1,
        w < n,
    decreases n - w,
{
    if w + m < n && m >= 1 {
        seq![m] + chunk_word_counts(n, m, (w + m) as nat)
    } else {
        seq![(n - w) as nat]
    }
}

/// The counted-word counts of the chunks of a sentence of `n` counted
/// words after the undersized-final-chunk merge, mirroring
/// `sentence_chunks`.
pub open spec fn sentence_chunk_word_counts(n: nat, m: nat, k: nat) -> Seq<nat>
    recommends
        m >= 1,
{
    if n == 0 || m == 0 {
        Seq::empty()
    } else {
        let raw = chunk_word_counts(n, m, 0);
        let rem = n % m;
        if rem != 0 && rem < k && raw.len() >= 2 {
            raw.take(raw.len() - 2) + seq![(raw[raw.len() - 2] + raw[raw.len() - 1]) as nat]
        } else {
            raw
        }
    }
}

proof fn lemma_chunk_word_counts_shape(n: nat, m: nat, w: nat)
    requires
        m >= 1,
        w < n,
    ensures
        ({
            let counts = chunk_word_counts(n, m, w);
            let last = counts.len() - 1;
            &&& counts.len() == chunks_from_len_spec(n, m, w)
            &&& forall|j: int| 0 <= j < last ==> #[trigger] counts[j] == m
            &&& 1 <= counts[last] <= m
            &&& ((n - w) % (m as int) != 0 ==> counts[last] == (n - w) % (m as int))
            &&& ((n - w) % (m as int) == 0 ==> counts[last] == m)
        }),
    decreases n - w,
{
    let counts = chunk_word_counts(n, m, w);
    if w + m < n {
        lemma_chunk_word_counts_shape(n, m, (w + m) as nat);
        let rest = chunk_word_counts(n, m, (w + m) as nat);
        assert(counts == seq![m] + rest);
        lemma_hoist_over_denominator((n - w - m - 1) as int, 1, m);
        assert((n - w - m - 1) + 1 * (m as int) == n - w - 1);
        lemma_mod_sub_multiples_vanish((n - w) as int, m as int);
        assert((n - (w + m)) % (m as int) == (n - w) % (m as int));
        assert(forall|j: int| 0 <= j < counts.len() - 1 ==> #[trigger] counts[j] == if j == 0 {
            m
        } else {
            rest[j - 1]
        });
    } else {
        assert(counts == seq![(n - w) as nat]);
        assert(1 <= n - w <= m);
        vstd::arithmetic::div_mod::lemma_basic_div((n - w - 1) as int, m as int);
        if (n - w) % (m as int) == 0 {
            if n - w < m {
                lemma_small_mod((n - w) as nat, m);
            }
        } else {
            assert(n - w != m) by {
                if n - w == m {
                    lemma_mod_self_0(m as int);
                }
            }
            lemma_small_mod((n - w) as nat, m);
        }
    }
}

/// The number of chunks cut from `n` counted words starting at word `w`,
/// before any merge: the ceiling of `(n - w) / m`.
pub open spec fn chunks_from_len_spec(n: nat, m: nat, w: nat) -> int
    recommends
        m >= 1,
        w < n,
{
    (n - w - 1) / (m as int) + 1
}

/// For a sentence of `n` counted words, chunked with at most `m` words per
/// chunk and a least final-chunk size of `k`: a sentence with no counted
/// words yields no chunk; otherwise the chunker yields exactly
/// `ceil(n / m)` chunks, or one fewer exactly when the undersized final
/// chunk was merged into its predecessor (`n % m != 0`, `n % m < k`, and at
/// least two chunks were cut).  The counted-word counts of the chunks are
/// `sentence_chunk_word_counts(n, m, k)`.
pub proof fn lemma_sentence_chunk_count(s: Seq<char>, m: nat, k: nat)
    requires
        m >= 1,
    ensures
        ({
            let n = word_offsets(word_segs_of(s), 0).len();
            let c = sentence_chunks(s, m, k).len();
            let q = chunks_from_len_spec(n, m, 0);
            &&& (n == 0 ==> c == 0)
            &&& (n > 0 ==> (if n % m != 0 && n % m < k && q >= 2 {
                c == q - 1
            } else {
                c == q
            }))
            &&& c == sentence_chunk_word_counts(n, m, k).len()
        }),
{
    let off = word_offsets(word_segs_of(s), 0);
    let n = off.len();
    if n > 0 {
        lemma_chunks_from_len(s, off, m, 0);
        lemma_chunk_word_counts_shape(n, m, 0);
        let raw = chunks_from(s, off, m, 0);
        let rawc = chunk_word_counts(n, m, 0);
        assert(raw.len() == (n - 1) / (m as int) + 1);
        assert(rawc.len() == raw.len());
    }
}

/// Every chunk of a sentence of `n >= 1` counted words holds at least
/// `min(k, n)` counted words, provided the least final size `k` is no more
/// than the greatest chunk size `m`.
pub proof fn lemma_chunk_word_counts_bounded(n: nat, m: nat, k: nat)
    requires
        m >= 1,
        k <= m,
        n >= 1,
    ensures
        ({
            let counts = sentence_chunk_word_counts(n, m, k);
            let floor = if k < n {
                k as int
            } else {
                n as int
            };
            forall|j: int| 0 <= j < counts.len() ==> #[trigger] counts[j] >= floor
        }),
{
    lemma_chunk_word_counts_shape(n, m, 0);
    let raw = chunk_word_counts(n, m, 0);
    let counts = sentence_chunk_word_counts(n, m, k);
    let rem = n % m;
    let floor = if k < n {
        k as int
    } else {
        n as int
    };
    if rem != 0 && rem < k && raw.len() >= 2 {
        assert forall|j: int| 0 <= j < counts.len() implies #[trigger] counts[j] >= floor by {
            if j < counts.len() - 1 {
                assert(counts[j] == raw[j]);
                assert(raw[j] == m);
            } else {
                assert(counts[j] == (raw[raw.len() - 2] + raw[raw.len() - 1]) as nat);
                assert(raw[raw.len() - 2] == m);
            }
        }
    } else {
        assert(counts == raw);
        let last = raw.len() - 1;
        assert forall|j: int| 0 <= j < counts.len() implies #[trigger] counts[j] >= floor by {
            if j < last {
                assert(raw[j] == m);
            } else {
                if n <= m {
                    assert(raw == seq![n]);
                } else {
                    assert(raw == seq![m] + chunk_word_counts(n, m, m));
                    assert(raw.len() >= 2);
                    if rem == 0 {
                        assert(raw[last] == m);
                    } else {
                        assert(raw[last] == rem);
                        assert(rem >= k);
                    }
                }
            }
        }
    }
}

} // verus!
