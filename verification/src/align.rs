//! The alignment engine: splits a Chinese sentence and its romanized
//! transcription into corresponding segments, resolving ambiguity against
//! the dictionary.
//!
//! The cursors move left to right and never backtrack. At each position the
//! dictionary is asked for every word that begins the remaining Chinese
//! text; candidates are tried longest first, and a candidate matches when
//! its compacted rendered reading begins the remaining transcription. When
//! no candidate exists, one Chinese character is consumed together with one
//! transcription character and joined into a run with an empty reading.

use vstd::prelude::*;

use crate::dict::{dict_lookup, lookup_candidates, Candidate};
use crate::exercise::{concat_texts, Segment, SpecSegment};
use crate::pinyin::{
    pretty_of, prettify_reading, spec_strip_prefix_no_tones, strip_prefix_no_tones,
};
use crate::text::{
    char_is_alphabetic, is_alphabetic_char, lower_of, remove_char, skip_ws, spec_strip_prefix,
    str_strip_prefix, str_tail, tail_of, to_lowercase_str, trim_start_str,
};

verus! {

/// Why an alignment failed.
#[verifier::ext_equal]
pub ghost enum SpecAlignError {
    /// Strict mode found a dictionary match that ends in the middle of a
    /// romanized word: `reading` is the compact reading that matched, and
    /// `remainder` the transcription cursor it matched at.
    SegmentationAmbiguous { reading: Seq<char>, remainder: Seq<char> },
    /// No candidate's reading matches the transcription: `chinese` is the
    /// cleaned Chinese input, `pinyin` the original transcription, and
    /// `remainder` the unresolved transcription cursor.
    AlignmentFailed { chinese: Seq<char>, pinyin: Seq<char>, remainder: Seq<char> },
}

/// Why an alignment failed; see `SpecAlignError` for the fields.
#[derive(Debug, PartialEq, Eq)]
pub enum AlignError {
    SegmentationAmbiguous { reading: String, remainder: String },
    AlignmentFailed { chinese: String, pinyin: String, remainder: String },
}

impl View for AlignError {
    type V = SpecAlignError;

    open spec fn view(&self) -> SpecAlignError {
        match self {
            AlignError::SegmentationAmbiguous { reading, remainder } => {
                SpecAlignError::SegmentationAmbiguous {
                    reading: reading@,
                    remainder: remainder@,
                }
            },
            AlignError::AlignmentFailed { chinese, pinyin, remainder } => {
                SpecAlignError::AlignmentFailed {
                    chinese: chinese@,
                    pinyin: pinyin@,
                    remainder: remainder@,
                }
            },
        }
    }
}

/// The Chinese input with its spaces removed.
pub open spec fn clean_chinese(s: Seq<char>) -> Seq<char> {
    s.filter(|c: char| c != ' ')
}

/// The transcription lowercased and with its apostrophes removed.
pub open spec fn clean_pinyin(s: Seq<char>) -> Seq<char> {
    lower_of(s).filter(|c: char| c != '\'')
}

/// A candidate's compact reading: the rendered reading, lowercased, with
/// its spaces removed.
pub open spec fn compact_of(reading: Seq<char>) -> Seq<char> {
    lower_of(pretty_of(reading)).filter(|c: char| c != ' ')
}

/// The greatest character count of a candidate word.
pub open spec fn max_word_chars(entries: Seq<(Seq<char>, Seq<char>)>) -> int
    decreases entries.len(),
{
    if entries.len() == 0 {
        0
    } else {
        let m = max_word_chars(entries.drop_last());
        if entries.last().0.len() > m {
            entries.last().0.len() as int
        } else {
            m
        }
    }
}

/// The distinct readings among the candidates whose word has exactly
/// `longest` characters, in first-occurrence order.
pub open spec fn longest_readings(entries: Seq<(Seq<char>, Seq<char>)>, longest: int) -> Seq<
    Seq<char>,
>
    decreases entries.len(),
{
    if entries.len() == 0 {
        Seq::empty()
    } else {
        let rest = longest_readings(entries.drop_last(), longest);
        if entries.last().0.len() == longest && !rest.contains(entries.last().1) {
            rest.push(entries.last().1)
        } else {
            rest
        }
    }
}

/// Outcome of trying the candidates at one position.
#[verifier::ext_equal]
pub ghost enum ScanOutcome {
    /// A candidate matched: its word, its rendered reading, and the
    /// transcription cursor after the match.
    Matched { word: Seq<char>, pretty: Seq<char>, rest: Seq<char> },
    /// Strict mode rejected a match that ends inside a romanized word.
    Ambiguous { reading: Seq<char> },
    /// No candidate's reading begins the transcription cursor.
    NoMatch,
}

/// Try the candidates from position `idx` downwards (the dictionary lists
/// words shortest first, so this tries the longest remaining candidate
/// first). A tone-insensitive comparison is used only for the very first
/// candidate tried, and only when `lax_ok` says the longest match is unique.
pub open spec fn scan_from(
    entries: Seq<(Seq<char>, Seq<char>)>,
    idx: int,
    py: Seq<char>,
    strict: bool,
    lax_ok: bool,
) -> ScanOutcome
    decreases idx + 1,
{
    if idx < 0 || idx >= entries.len() {
        ScanOutcome::NoMatch
    } else {
        let compact = compact_of(entries[idx].1);
        let stripped = if lax_ok && idx == entries.len() - 1 {
            spec_strip_prefix_no_tones(py, compact)
        } else {
            spec_strip_prefix(py, compact)
        };
        match stripped {
            Some(rest) => {
                if strict && rest.len() > 0 && is_alphabetic_char(rest[0]) {
                    ScanOutcome::Ambiguous { reading: compact }
                } else {
                    ScanOutcome::Matched {
                        word: entries[idx].0,
                        pretty: pretty_of(entries[idx].1),
                        rest,
                    }
                }
            },
            None => scan_from(entries, idx - 1, py, strict, lax_ok),
        }
    }
}

/// One alignment state: what the cursors still hold and the segments
/// committed so far. `ctx_chinese` and `ctx_pinyin` only feed error reports.
pub open spec fn align_from(
    ch: Seq<char>,
    py: Seq<char>,
    strict: bool,
    lax: bool,
    acc: Seq<SpecSegment>,
    ctx_chinese: Seq<char>,
    ctx_pinyin: Seq<char>,
) -> Result<Seq<SpecSegment>, SpecAlignError>
    decreases ch.len(),
{
    if ch.len() == 0 {
        Ok(acc)
    } else {
        let py1 = skip_ws(py);
        let entries = dict_lookup(ch);
        if entries.len() == 0 {
            let c = ch[0];
            let acc1 = if acc.len() > 0 && acc.last().pinyin.len() == 0 {
                acc.update(
                    acc.len() - 1,
                    SpecSegment { chinese: acc.last().chinese.push(c), pinyin: acc.last().pinyin },
                )
            } else {
                acc.push(SpecSegment { chinese: seq![c], pinyin: Seq::empty() })
            };
            align_from(ch.skip(1), tail_of(py1), strict, lax, acc1, ctx_chinese, ctx_pinyin)
        } else {
            let longest = max_word_chars(entries);
            let lax_ok = lax && longest >= 2 && longest_readings(entries, longest).len() == 1;
            match scan_from(entries, entries.len() - 1, py1, strict, lax_ok) {
                ScanOutcome::Matched { word, pretty, rest } => {
                    if word.len() >= 1 && word.is_prefix_of(ch) {
                        align_from(
                            ch.skip(word.len() as int),
                            rest,
                            strict,
                            lax,
                            acc.push(SpecSegment { chinese: word, pinyin: pretty }),
                            ctx_chinese,
                            ctx_pinyin,
                        )
                    } else {
                        Err(
                            SpecAlignError::AlignmentFailed {
                                chinese: ctx_chinese,
                                pinyin: ctx_pinyin,
                                remainder: py1,
                            },
                        )
                    }
                },
                ScanOutcome::Ambiguous { reading } => {
                    Err(SpecAlignError::SegmentationAmbiguous { reading, remainder: py1 })
                },
                ScanOutcome::NoMatch => {
                    Err(
                        SpecAlignError::AlignmentFailed {
                            chinese: ctx_chinese,
                            pinyin: ctx_pinyin,
                            remainder: py1,
                        },
                    )
                },
            }
        }
    }
}

/// What aligning a Chinese sentence against its transcription yields: the
/// segments in order, or the first error met.
pub open spec fn spec_align(
    chinese: Seq<char>,
    pinyin: Seq<char>,
    strict: bool,
    lax: bool,
) -> Result<Seq<SpecSegment>, SpecAlignError> {
    align_from(
        clean_chinese(chinese),
        clean_pinyin(pinyin),
        strict,
        lax,
        Seq::empty(),
        clean_chinese(chinese),
        pinyin,
    )
}

/// The mathematical value of an alignment result.
pub open spec fn align_result_view(r: Result<Vec<Segment>, AlignError>) -> Result<
    Seq<SpecSegment>,
    SpecAlignError,
> {
    match r {
        Ok(v) => Ok(v@.map_values(|s: Segment| s@)),
        Err(e) => Err(e@),
    }
}

/// A matched scan outcome names a real candidate: its word and rendered
/// reading come from some entry of the candidate list.
proof fn lemma_scan_matched(
    entries: Seq<(Seq<char>, Seq<char>)>,
    idx: int,
    py: Seq<char>,
    strict: bool,
    lax_ok: bool,
)
    ensures
        scan_from(entries, idx, py, strict, lax_ok) matches ScanOutcome::Matched {
            word,
            pretty,
            rest,
        } ==> exists|k: int|
            0 <= k < entries.len() && (#[trigger] entries[k]).0 == word && pretty == pretty_of(
                entries[k].1,
            ),
    decreases idx + 1,
{
    if idx < 0 || idx >= entries.len() {
    } else {
        let compact = compact_of(entries[idx].1);
        let stripped = if lax_ok && idx == entries.len() - 1 {
            spec_strip_prefix_no_tones(py, compact)
        } else {
            spec_strip_prefix(py, compact)
        };
        match stripped {
            Some(rest) => {
                if scan_from(entries, idx, py, strict, lax_ok) is Matched {
                    assert(0 <= idx < entries.len() && entries[idx].0 == entries[idx].0);
                }
            },
            None => {
                lemma_scan_matched(entries, idx - 1, py, strict, lax_ok);
            },
        }
    }
}

/// An exact prefix match is also a tone-insensitive one, with the same
/// remainder.
proof fn lemma_exact_implies_no_tones(input: Seq<char>, prefix: Seq<char>)
    requires
        spec_strip_prefix(input, prefix) is Some,
    ensures
        spec_strip_prefix_no_tones(input, prefix) == spec_strip_prefix(input, prefix),
    decreases prefix.len(),
{
    if prefix.len() == 0 {
        assert(input.skip(0) =~= input);
    } else {
        assert(prefix[0] == input.subrange(0, prefix.len() as int)[0]);
        assert(prefix.skip(1).is_prefix_of(input.skip(1))) by {
            assert(prefix.skip(1) =~= input.skip(1).subrange(0, prefix.len() - 1));
        }
        lemma_exact_implies_no_tones(input.skip(1), prefix.skip(1));
        assert(input.skip(1).skip(prefix.len() - 1) =~= input.skip(prefix.len() as int));
    }
}

/// With candidates in nondecreasing word length — the order the dictionary
/// yields them in — a matched scan from position `idx` commits a word at
/// least as long as that of any candidate up to `idx` whose compact reading
/// exactly begins the cursor: the most specific match wins.
proof fn lemma_scan_matched_longest(
    entries: Seq<(Seq<char>, Seq<char>)>,
    idx: int,
    py: Seq<char>,
    strict: bool,
    lax_ok: bool,
)
    requires
        forall|i: int, j: int|
            0 <= i <= j < entries.len() ==> (#[trigger] entries[i]).0.len() <= (
            #[trigger] entries[j]).0.len(),
    ensures
        scan_from(entries, idx, py, strict, lax_ok) matches ScanOutcome::Matched {
            word,
            pretty,
            rest,
        } ==> forall|j: int|
            0 <= j <= idx && j < entries.len() && spec_strip_prefix(
                py,
                #[trigger] compact_of(entries[j].1),
            ) is Some ==> entries[j].0.len() <= word.len(),
    decreases idx + 1,
{
    if idx < 0 || idx >= entries.len() {
    } else {
        let compact = compact_of(entries[idx].1);
        let stripped = if lax_ok && idx == entries.len() - 1 {
            spec_strip_prefix_no_tones(py, compact)
        } else {
            spec_strip_prefix(py, compact)
        };
        match stripped {
            Some(rest) => {},
            None => {
                lemma_scan_matched_longest(entries, idx - 1, py, strict, lax_ok);
                if scan_from(entries, idx, py, strict, lax_ok) is Matched {
                    if spec_strip_prefix(py, compact) is Some {
                        if lax_ok && idx == entries.len() - 1 {
                            lemma_exact_implies_no_tones(py, compact);
                        }
                        assert(false);
                    }
                }
            },
        }
    }
}

/// Longest match first: when the candidates come in nondecreasing word
/// length, a matched alignment step commits a word at least as long as that
/// of every candidate whose compact reading exactly begins the cursor.
pub proof fn lemma_scan_prefers_longest(
    entries: Seq<(Seq<char>, Seq<char>)>,
    py: Seq<char>,
    strict: bool,
    lax_ok: bool,
)
    requires
        forall|i: int, j: int|
            0 <= i <= j < entries.len() ==> (#[trigger] entries[i]).0.len() <= (
            #[trigger] entries[j]).0.len(),
    ensures
        scan_from(entries, entries.len() - 1, py, strict, lax_ok) matches ScanOutcome::Matched {
            word,
            pretty,
            rest,
        } ==> forall|j: int|
            0 <= j < entries.len() && spec_strip_prefix(
                py,
                #[trigger] compact_of(entries[j].1),
            ) is Some ==> entries[j].0.len() <= word.len(),
{
    lemma_scan_matched_longest(entries, entries.len() - 1, py, strict, lax_ok);
}

/// Largest candidate word length, in characters.
fn max_word_chars_exec(cands: &Vec<Candidate>) -> (r: usize)
    ensures
        r as int == max_word_chars(cands@.map_values(|c: Candidate| c@)),
{
    let ghost entries = cands@.map_values(|c: Candidate| c@);
    let n: usize = cands.len();
    let mut m: usize = 0;
    let mut i: usize = 0;
    proof {
        assert(entries.take(0) =~= Seq::<(Seq<char>, Seq<char>)>::empty());
    }
    while i < n
        invariant
            n == cands@.len(),
            entries == cands@.map_values(|c: Candidate| c@),
            i <= n,
            m as int == max_word_chars(entries.take(i as int)),
        decreases n - i,
    {
        proof {
            assert(entries.take(i + 1).drop_last() =~= entries.take(i as int));
            assert(entries.take(i + 1).last() == entries[i as int]);
            assert(entries[i as int] == cands@[i as int]@);
        }
        let w: usize = cands[i].word.as_str().unicode_len();
        if w > m {
            m = w;
        }
        i = i + 1;
    }
    proof {
        assert(entries.take(n as int) =~= entries);
    }
    m
}

/// How many distinct readings the candidates of the given longest word
/// length carry.
fn distinct_longest_count(cands: &Vec<Candidate>, longest: usize) -> (r: usize)
    ensures
        r as int == longest_readings(
            cands@.map_values(|c: Candidate| c@),
            longest as int,
        ).len(),
{
    let ghost entries = cands@.map_values(|c: Candidate| c@);
    let n: usize = cands.len();
    let mut seen: Vec<String> = Vec::new();
    let mut i: usize = 0;
    proof {
        assert(entries.take(0) =~= Seq::<(Seq<char>, Seq<char>)>::empty());
        assert(seen.deep_view() =~= longest_readings(entries.take(0), longest as int));
    }
    while i < n
        invariant
            n == cands@.len(),
            entries == cands@.map_values(|c: Candidate| c@),
            i <= n,
            seen.deep_view() == longest_readings(entries.take(i as int), longest as int),
        decreases n - i,
    {
        proof {
            assert(entries.take(i + 1).drop_last() =~= entries.take(i as int));
            assert(entries.take(i + 1).last() == entries[i as int]);
            assert(entries[i as int] == cands@[i as int]@);
        }
        let cand = &cands[i];
        if cand.word.as_str().unicode_len() == longest && !crate::exercise::vec_contains_str(
            &seen,
            cand.reading.as_str(),
        ) {
            let ghost prev = seen.deep_view();
            seen.push(cand.reading.clone());
            proof {
                assert(seen.deep_view() =~= prev.push(cand.reading@));
            }
        }
        i = i + 1;
    }
    proof {
        assert(entries.take(n as int) =~= entries);
    }
    seen.len()
}

/// Executable outcome of trying the candidates at one position.
enum Scan {
    Matched { word: String, pretty: String, rest: String },
    Ambiguous { reading: String },
    NoMatch,
}

/// Try the candidates from the last (longest) to the first, mirroring
/// `scan_from`.
fn scan_candidates_exec(cands: &Vec<Candidate>, py: &str, strict: bool, lax_ok: bool) -> (r: Scan)
    ensures
        ({
            let entries = cands@.map_values(|c: Candidate| c@);
            let outcome = scan_from(entries, entries.len() - 1, py@, strict, lax_ok);
            match r {
                Scan::Matched { word, pretty, rest } => outcome == (ScanOutcome::Matched {
                    word: word@,
                    pretty: pretty@,
                    rest: rest@,
                }),
                Scan::Ambiguous { reading } => outcome == (ScanOutcome::Ambiguous {
                    reading: reading@,
                }),
                Scan::NoMatch => outcome == ScanOutcome::NoMatch,
            }
        }),
{
    let ghost entries = cands@.map_values(|c: Candidate| c@);
    let n: usize = cands.len();
    let mut i: usize = n;
    while i > 0
        invariant
            n == cands@.len(),
            entries == cands@.map_values(|c: Candidate| c@),
            i <= n,
            scan_from(entries, n as int - 1, py@, strict, lax_ok) == scan_from(
                entries,
                i as int - 1,
                py@,
                strict,
                lax_ok,
            ),
        decreases i,
    {
        i = i - 1;
        proof {
            assert(entries[i as int] == cands@[i as int]@);
        }
        let cand = &cands[i];
        let pretty = prettify_reading(cand.reading.as_str());
        let lowered = to_lowercase_str(pretty.as_str());
        let compact = remove_char(lowered.as_str(), ' ');
        proof {
            assert(compact@ == compact_of(entries[i as int].1));
        }
        let stripped: Option<&str> = if lax_ok && i == n - 1 {
            strip_prefix_no_tones(py, compact.as_str())
        } else {
            str_strip_prefix(py, compact.as_str())
        };
        match stripped {
            Some(rest) => {
                let rlen: usize = rest.unicode_len();
                if strict && rlen > 0 && char_is_alphabetic(rest.get_char(0)) {
                    return Scan::Ambiguous { reading: compact };
                }
                return Scan::Matched {
                    word: cand.word.clone(),
                    pretty,
                    rest: rest.to_owned(),
                };
            },
            None => {},
        }
    }
    proof {
        assert(scan_from(entries, -1, py@, strict, lax_ok) == ScanOutcome::NoMatch);
    }
    Scan::NoMatch
}

/// Unaligned runs are maximal: no two neighbouring segments both lack a
/// reading.
pub open spec fn runs_are_merged(segs: Seq<SpecSegment>) -> bool {
    forall|k: int|
        0 <= k < segs.len() - 1 ==> (#[trigger] segs[k]).pinyin.len() > 0 || segs[k
            + 1].pinyin.len() > 0
}

/// Where segment `k`'s text starts within the aligned Chinese text.
pub open spec fn seg_start(segs: Seq<SpecSegment>, k: int) -> int {
    concat_texts(segs.take(k)).len() as int
}

/// The segment is a dictionary word committed at position `pos` of the
/// cleaned Chinese text: some candidate there carries its text as the
/// simplified form, and its reading is that candidate's rendered reading.
pub open spec fn is_dict_word_at(clean: Seq<char>, pos: int, seg: SpecSegment) -> bool {
    exists|i: int|
        0 <= i < dict_lookup(clean.skip(pos)).len() && (#[trigger] dict_lookup(clean.skip(pos))[
            i]).0 == seg.chinese && seg.pinyin == pretty_of(dict_lookup(clean.skip(pos))[i].1)
}

/// A reading is empty exactly on the unaligned runs: every segment with a
/// non-empty reading is a dictionary word committed at its position, and
/// every character of a segment with an empty reading stood at a position
/// the dictionary had no candidate for.
pub open spec fn segments_explained(clean: Seq<char>, segs: Seq<SpecSegment>) -> bool {
    &&& forall|k: int|
        0 <= k < segs.len() && (#[trigger] segs[k]).pinyin.len() > 0 ==> is_dict_word_at(
            clean,
            seg_start(segs, k),
            segs[k],
        )
    &&& forall|k: int, o: int|
        0 <= k < segs.len() && segs[k].pinyin.len() == 0 && 0 <= o < segs[k].chinese.len()
            ==> #[trigger] dict_lookup(clean.skip(seg_start(segs, k) + o)).len() == 0
}

/// Appending a segment appends its text to the concatenation.
proof fn lemma_concat_push(acc: Seq<SpecSegment>, seg: SpecSegment)
    ensures
        concat_texts(acc.push(seg)) == concat_texts(acc) + seg.chinese,
{
    assert(acc.push(seg).drop_last() =~= acc);
    assert(acc.push(seg).last() == seg);
}

/// Extending the last segment's text by one character appends it to the
/// concatenation.
proof fn lemma_concat_extend_last(acc: Seq<SpecSegment>, c: char)
    requires
        acc.len() > 0,
    ensures
        concat_texts(
            acc.update(
                acc.len() - 1,
                SpecSegment { chinese: acc.last().chinese.push(c), pinyin: acc.last().pinyin },
            ),
        ) == concat_texts(acc) + seq![c],
{
    let acc1 = acc.update(
        acc.len() - 1,
        SpecSegment { chinese: acc.last().chinese.push(c), pinyin: acc.last().pinyin },
    );
    assert(acc1.drop_last() =~= acc.drop_last());
    assert(acc1.last().chinese =~= acc.last().chinese + seq![c]);
    assert(concat_texts(acc.drop_last()) + (acc.last().chinese + seq![c]) =~= (concat_texts(
        acc.drop_last(),
    ) + acc.last().chinese) + seq![c]);
}

impl Segment {
    /// Align a Chinese sentence with its romanized transcription. The result
    /// is exactly `spec_align` of the inputs; on success the segment texts
    /// concatenate back to the Chinese input with its spaces removed, runs
    /// of unaligned characters are merged into single empty-reading
    /// segments, and a segment's reading is empty exactly when it is such a
    /// run (`segments_explained`).
    #[verifier::rlimit(100)]
    pub fn join_with(
        orig_chinese: &str,
        orig_pinyin: &str,
        strict_segmentation: bool,
        lax_pinyin: bool,
    ) -> (r: Result<Vec<Segment>, AlignError>)
        ensures
            align_result_view(r) == spec_align(
                orig_chinese@,
                orig_pinyin@,
                strict_segmentation,
                lax_pinyin,
            ),
            r matches Ok(segs) ==> concat_texts(segs@.map_values(|s: Segment| s@))
                == clean_chinese(orig_chinese@),
            r matches Ok(segs) ==> runs_are_merged(segs@.map_values(|s: Segment| s@)),
            r matches Ok(segs) ==> segments_explained(
                clean_chinese(orig_chinese@),
                segs@.map_values(|s: Segment| s@),
            ),
    {
        let ghost ch0 = clean_chinese(orig_chinese@);
        let ghost py0 = clean_pinyin(orig_pinyin@);
        let ghost ctx_p = orig_pinyin@;
        let ghost goal = align_from(
            ch0,
            py0,
            strict_segmentation,
            lax_pinyin,
            Seq::empty(),
            ch0,
            ctx_p,
        );
        let chinese_buf = remove_char(orig_chinese, ' ');
        let lowered_pinyin = to_lowercase_str(orig_pinyin);
        let mut pinyin: String = remove_char(lowered_pinyin.as_str(), '\'');
        let mut segments: Vec<Segment> = Vec::new();
        let mut chinese: &str = chinese_buf.as_str();
        proof {
            assert(segments@.map_values(|s: Segment| s@) =~= Seq::<SpecSegment>::empty());
            assert(concat_texts(Seq::<SpecSegment>::empty()) + ch0 =~= ch0);
        }
        while !chinese.is_empty()
            invariant
                chinese_buf@ == ch0,
                concat_texts(segments@.map_values(|s: Segment| s@)) + chinese@ == ch0,
                runs_are_merged(segments@.map_values(|s: Segment| s@)),
                segments_explained(ch0, segments@.map_values(|s: Segment| s@)),
                ch0 == clean_chinese(orig_chinese@),
                py0 == clean_pinyin(orig_pinyin@),
                ctx_p == orig_pinyin@,
                goal == align_from(
                    ch0,
                    py0,
                    strict_segmentation,
                    lax_pinyin,
                    Seq::empty(),
                    ch0,
                    ctx_p,
                ),
                goal == align_from(
                    chinese@,
                    pinyin@,
                    strict_segmentation,
                    lax_pinyin,
                    segments@.map_values(|s: Segment| s@),
                    ch0,
                    ctx_p,
                ),
            decreases chinese@.len(),
        {
            let ghost ch_cur = chinese@;
            let ghost acc_cur = segments@.map_values(|s: Segment| s@);
            let trimmed = trim_start_str(pinyin.as_str()).to_owned();
            pinyin = trimmed;
            let ghost py1 = pinyin@;
            let cands = lookup_candidates(chinese);
            let ghost entries = cands@.map_values(|c: Candidate| c@);
            let clen: usize = chinese.unicode_len();
            if cands.len() == 0 {
                let one = chinese.substring_char(0, 1);
                proof {
                    assert(one@ =~= seq![ch_cur[0]]);
                    assert(entries == dict_lookup(ch_cur));
                    assert(dict_lookup(ch_cur).len() == 0);
                    assert(ch0.skip(concat_texts(acc_cur).len() as int) =~= ch_cur);
                }
                let merge = if segments.len() > 0 {
                    let last = &segments[segments.len() - 1];
                    last.pinyin.as_str().is_empty()
                } else {
                    false
                };
                if merge {
                    let mut lastseg = segments.pop().unwrap();
                    lastseg.chinese.append(one);
                    segments.push(lastseg);
                    proof {
                        let acc1 = acc_cur.update(
                            acc_cur.len() - 1,
                            SpecSegment {
                                chinese: acc_cur.last().chinese.push(ch_cur[0]),
                                pinyin: acc_cur.last().pinyin,
                            },
                        );
                        assert(acc_cur.last().chinese + one@ =~= acc_cur.last().chinese.push(
                            ch_cur[0],
                        ));
                        assert(segments@.map_values(|s: Segment| s@) =~= acc1);
                        lemma_concat_extend_last(acc_cur, ch_cur[0]);
                        assert forall|k: int| 0 <= k < acc1.len() implies acc1.take(k)
                            == acc_cur.take(k) by {
                            assert(acc1.take(k) =~= acc_cur.take(k));
                        }
                        assert(acc_cur.last().pinyin.len() == 0);
                        assert forall|k: int| 0 <= k < acc1.len() - 1 implies (
                        #[trigger] acc1[k]).pinyin.len() > 0 || acc1[k + 1].pinyin.len() > 0 by {
                            assert(acc1[k] == acc_cur[k]);
                            if k + 1 < acc1.len() - 1 {
                                assert(acc1[k + 1] == acc_cur[k + 1]);
                            } else {
                                assert(acc_cur[k].pinyin.len() > 0 || acc_cur[k
                                    + 1].pinyin.len() > 0);
                            }
                        }
                        assert forall|k: int|
                            0 <= k < acc1.len() && (#[trigger] acc1[k]).pinyin.len()
                                > 0 implies is_dict_word_at(ch0, seg_start(acc1, k), acc1[k]) by {
                            assert(acc1[k] == acc_cur[k]);
                            assert(seg_start(acc1, k) == seg_start(acc_cur, k));
                        }
                        assert(seg_start(acc_cur, acc_cur.len() - 1)
                            + acc_cur.last().chinese.len() == concat_texts(acc_cur).len()) by {
                            assert(acc_cur.take(acc_cur.len() - 1) =~= acc_cur.drop_last());
                        }
                        assert forall|k: int, o: int|
                            0 <= k < acc1.len() && acc1[k].pinyin.len() == 0 && 0 <= o < acc1[
                                k].chinese.len() implies #[trigger] dict_lookup(
                            ch0.skip(seg_start(acc1, k) + o),
                        ).len() == 0 by {
                            assert(seg_start(acc1, k) == seg_start(acc_cur, k));
                            if k < acc1.len() - 1 {
                                assert(acc1[k] == acc_cur[k]);
                            } else {
                                if o < acc1[k].chinese.len() - 1 {
                                    assert(acc_cur[k].pinyin.len() == 0);
                                    assert(acc_cur[k].chinese.len() == acc1[k].chinese.len() - 1);
                                } else {
                                    assert(seg_start(acc_cur, k) + o == concat_texts(
                                        acc_cur,
                                    ).len());
                                }
                            }
                        }
                    }
                } else {
                    segments.push(Segment { chinese: one.to_owned(), pinyin: String::new() });
                    proof {
                        let acc1 = acc_cur.push(
                            SpecSegment { chinese: seq![ch_cur[0]], pinyin: Seq::empty() },
                        );
                        assert(segments@.map_values(|s: Segment| s@) =~= acc1);
                        lemma_concat_push(
                            acc_cur,
                            SpecSegment { chinese: seq![ch_cur[0]], pinyin: Seq::empty() },
                        );
                        assert forall|k: int| 0 <= k <= acc_cur.len() implies acc1.take(k)
                            == acc_cur.take(k) by {
                            assert(acc1.take(k) =~= acc_cur.take(k));
                        }
                        assert forall|k: int| 0 <= k < acc1.len() - 1 implies (
                        #[trigger] acc1[k]).pinyin.len() > 0 || acc1[k + 1].pinyin.len() > 0 by {
                            assert(acc1[k] == acc_cur[k]);
                            if k + 1 < acc1.len() - 1 {
                                assert(acc1[k + 1] == acc_cur[k + 1]);
                            } else {
                                assert(acc_cur.len() > 0 && acc_cur.last().pinyin.len() > 0);
                            }
                        }
                        assert forall|k: int|
                            0 <= k < acc1.len() && (#[trigger] acc1[k]).pinyin.len()
                                > 0 implies is_dict_word_at(ch0, seg_start(acc1, k), acc1[k]) by {
                            assert(acc1[k] == acc_cur[k]);
                            assert(seg_start(acc1, k) == seg_start(acc_cur, k));
                        }
                        assert forall|k: int, o: int|
                            0 <= k < acc1.len() && acc1[k].pinyin.len() == 0 && 0 <= o < acc1[
                                k].chinese.len() implies #[trigger] dict_lookup(
                            ch0.skip(seg_start(acc1, k) + o),
                        ).len() == 0 by {
                            if k < acc1.len() - 1 {
                                assert(acc1[k] == acc_cur[k]);
                                assert(seg_start(acc1, k) == seg_start(acc_cur, k));
                            } else {
                                assert(acc1[k].chinese.len() == 1);
                                assert(acc_cur.take(acc_cur.len() as int) =~= acc_cur);
                                assert(seg_start(acc1, k) == concat_texts(acc_cur).len());
                            }
                        }
                    }
                }
                chinese = chinese.substring_char(1, clen);
                let tail = str_tail(pinyin.as_str()).to_owned();
                pinyin = tail;
                proof {
                    assert(chinese@ =~= ch_cur.skip(1));
                    assert((concat_texts(acc_cur) + seq![ch_cur[0]]) + ch_cur.skip(1)
                        =~= concat_texts(acc_cur) + ch_cur);
                }
            } else {
                let longest = max_word_chars_exec(&cands);
                let lax_ok = lax_pinyin && longest >= 2 && distinct_longest_count(&cands, longest)
                    == 1;
                proof {
                    assert(entries == dict_lookup(ch_cur));
                }
                match scan_candidates_exec(&cands, pinyin.as_str(), strict_segmentation, lax_ok) {
                    Scan::Matched { word, pretty, rest } => {
                        let ghost wordv = word@;
                        let ghost prettyv = pretty@;
                        proof {
                            lemma_scan_matched(
                                entries,
                                entries.len() - 1,
                                py1,
                                strict_segmentation,
                                lax_ok,
                            );
                            let k = choose|k: int|
                                0 <= k < entries.len() && (#[trigger] entries[k]).0 == wordv
                                    && prettyv == pretty_of(entries[k].1);
                            assert(entries[k] == cands@[k]@);
                            assert(cands@[k].word@.len() >= 1 && cands@[k].word@.is_prefix_of(
                                ch_cur,
                            ));
                            assert(pretty_of(cands@[k].reading@).len() >= 1);
                            assert(prettyv.len() >= 1);
                        }
                        let wlen: usize = word.as_str().unicode_len();
                        segments.push(Segment { chinese: word, pinyin: pretty });
                        chinese = chinese.substring_char(wlen, clen);
                        pinyin = rest;
                        proof {
                            assert(chinese@ =~= ch_cur.skip(wlen as int));
                            let acc1 = acc_cur.push(
                                SpecSegment { chinese: wordv, pinyin: prettyv },
                            );
                            assert(segments@.map_values(|s: Segment| s@) =~= acc1);
                            lemma_concat_push(
                                acc_cur,
                                SpecSegment { chinese: wordv, pinyin: prettyv },
                            );
                            assert(wordv =~= ch_cur.take(wlen as int));
                            assert((concat_texts(acc_cur) + wordv) + ch_cur.skip(wlen as int)
                                =~= concat_texts(acc_cur) + ch_cur);
                            assert forall|k: int| 0 <= k <= acc_cur.len() implies acc1.take(k)
                                == acc_cur.take(k) by {
                                assert(acc1.take(k) =~= acc_cur.take(k));
                            }
                            assert forall|k: int| 0 <= k < acc1.len() - 1 implies (
                            #[trigger] acc1[k]).pinyin.len() > 0 || acc1[k + 1].pinyin.len()
                                > 0 by {
                                assert(acc1[k] == acc_cur[k]);
                                if k + 1 < acc1.len() - 1 {
                                    assert(acc1[k + 1] == acc_cur[k + 1]);
                                } else {
                                    assert(acc1[k + 1].pinyin.len() >= 1);
                                }
                            }
                            assert(ch0.skip(concat_texts(acc_cur).len() as int) =~= ch_cur);
                            assert(is_dict_word_at(
                                ch0,
                                concat_texts(acc_cur).len() as int,
                                acc1.last(),
                            )) by {
                                let k = choose|k: int|
                                    0 <= k < entries.len() && (#[trigger] entries[k]).0 == wordv
                                        && prettyv == pretty_of(entries[k].1);
                                assert(0 <= k < dict_lookup(ch_cur).len() && dict_lookup(ch_cur)[
                                    k].0 == acc1.last().chinese && acc1.last().pinyin == pretty_of(
                                    dict_lookup(ch_cur)[k].1,
                                ));
                            }
                            assert forall|k: int|
                                0 <= k < acc1.len() && (#[trigger] acc1[k]).pinyin.len()
                                    > 0 implies is_dict_word_at(
                                ch0,
                                seg_start(acc1, k),
                                acc1[k],
                            ) by {
                                if k < acc_cur.len() {
                                    assert(acc1[k] == acc_cur[k]);
                                    assert(seg_start(acc1, k) == seg_start(acc_cur, k));
                                } else {
                                    assert(acc_cur.take(acc_cur.len() as int) =~= acc_cur);
                                    assert(seg_start(acc1, k) == concat_texts(acc_cur).len());
                                }
                            }
                            assert forall|k: int, o: int|
                                0 <= k < acc1.len() && acc1[k].pinyin.len() == 0 && 0 <= o < acc1[
                                    k].chinese.len() implies #[trigger] dict_lookup(
                                ch0.skip(seg_start(acc1, k) + o),
                            ).len() == 0 by {
                                assert(acc1[k] == acc_cur[k]);
                                assert(seg_start(acc1, k) == seg_start(acc_cur, k));
                            }
                        }
                    },
                    Scan::Ambiguous { reading } => {
                        let err = AlignError::SegmentationAmbiguous {
                            reading,
                            remainder: pinyin,
                        };
                        proof {
                            assert(align_result_view(Err(err)) == goal);
                        }
                        return Err(err);
                    },
                    Scan::NoMatch => {
                        let err = AlignError::AlignmentFailed {
                            chinese: chinese_buf.clone(),
                            pinyin: orig_pinyin.to_owned(),
                            remainder: pinyin,
                        };
                        proof {
                            assert(align_result_view(Err(err)) == goal);
                        }
                        return Err(err);
                    },
                }
            }
        }
        proof {
            assert(align_from(
                chinese@,
                pinyin@,
                strict_segmentation,
                lax_pinyin,
                segments@.map_values(|s: Segment| s@),
                ch0,
                ctx_p,
            ) == Ok::<Seq<SpecSegment>, SpecAlignError>(segments@.map_values(|s: Segment| s@)));
            lemma_align_from_round_trip(
                ch0,
                py0,
                strict_segmentation,
                lax_pinyin,
                Seq::empty(),
                ch0,
                ctx_p,
            );
            assert(concat_texts(Seq::<SpecSegment>::empty()) + ch0 =~= ch0);
        }
        Ok(segments)
    }

    /// Align with strict segmentation and exact tones: the defaults of the
    /// batch converter.
    pub fn join(orig_chinese: &str, orig_pinyin: &str) -> (r: Result<Vec<Segment>, AlignError>)
        ensures
            align_result_view(r) == spec_align(orig_chinese@, orig_pinyin@, true, false),
            r matches Ok(segs) ==> concat_texts(segs@.map_values(|s: Segment| s@))
                == clean_chinese(orig_chinese@),
            r matches Ok(segs) ==> runs_are_merged(segs@.map_values(|s: Segment| s@)),
            r matches Ok(segs) ==> segments_explained(
                clean_chinese(orig_chinese@),
                segs@.map_values(|s: Segment| s@),
            ),
    {
        Segment::join_with(orig_chinese, orig_pinyin, true, false)
    }
}

/// Round-trip of one alignment state: whatever segments a successful
/// alignment adds, their texts concatenate to exactly the remaining Chinese
/// cursor.
proof fn lemma_align_from_round_trip(
    ch: Seq<char>,
    py: Seq<char>,
    strict: bool,
    lax: bool,
    acc: Seq<SpecSegment>,
    ctx_chinese: Seq<char>,
    ctx_pinyin: Seq<char>,
)
    ensures
        align_from(ch, py, strict, lax, acc, ctx_chinese, ctx_pinyin) matches Ok(segs)
            ==> concat_texts(segs) == concat_texts(acc) + ch,
    decreases ch.len(),
{
    if ch.len() == 0 {
        if align_from(ch, py, strict, lax, acc, ctx_chinese, ctx_pinyin) is Ok {
            assert(concat_texts(acc) + ch =~= concat_texts(acc));
        }
    } else {
        let py1 = skip_ws(py);
        let entries = dict_lookup(ch);
        if entries.len() == 0 {
            let c = ch[0];
            let acc1 = if acc.len() > 0 && acc.last().pinyin.len() == 0 {
                acc.update(
                    acc.len() - 1,
                    SpecSegment { chinese: acc.last().chinese.push(c), pinyin: acc.last().pinyin },
                )
            } else {
                acc.push(SpecSegment { chinese: seq![c], pinyin: Seq::empty() })
            };
            lemma_align_from_round_trip(
                ch.skip(1),
                tail_of(py1),
                strict,
                lax,
                acc1,
                ctx_chinese,
                ctx_pinyin,
            );
            assert(concat_texts(acc1) == concat_texts(acc) + seq![c]) by {
                if acc.len() > 0 && acc.last().pinyin.len() == 0 {
                    assert(acc1.drop_last() =~= acc.drop_last());
                    assert(acc1.last().chinese =~= acc.last().chinese + seq![c]);
                    assert(concat_texts(acc.drop_last()) + (acc.last().chinese + seq![c]) =~= (
                    concat_texts(acc.drop_last()) + acc.last().chinese) + seq![c]);
                } else {
                    assert(acc1.drop_last() =~= acc);
                    assert(acc1.last().chinese =~= seq![c]);
                }
            }
            assert((concat_texts(acc) + seq![c]) + ch.skip(1) =~= concat_texts(acc) + ch);
        } else {
            let longest = max_word_chars(entries);
            let lax_ok = lax && longest >= 2 && longest_readings(entries, longest).len() == 1;
            match scan_from(entries, entries.len() - 1, py1, strict, lax_ok) {
                ScanOutcome::Matched { word, pretty, rest } => {
                    if word.len() >= 1 && word.is_prefix_of(ch) {
                        let acc1 = acc.push(SpecSegment { chinese: word, pinyin: pretty });
                        lemma_align_from_round_trip(
                            ch.skip(word.len() as int),
                            rest,
                            strict,
                            lax,
                            acc1,
                            ctx_chinese,
                            ctx_pinyin,
                        );
                        assert(acc1.drop_last() =~= acc);
                        assert(word =~= ch.take(word.len() as int));
                        assert((concat_texts(acc) + word) + ch.skip(word.len() as int)
                            =~= concat_texts(acc) + ch);
                    }
                },
                ScanOutcome::Ambiguous { reading } => {},
                ScanOutcome::NoMatch => {},
            }
        }
    }
}

/// Round-trip: for any successfully aligned record, the segment texts
/// concatenate to the original Chinese input with its spaces removed.
pub proof fn lemma_align_round_trip(chinese: Seq<char>, pinyin: Seq<char>, strict: bool, lax: bool)
    ensures
        spec_align(chinese, pinyin, strict, lax) matches Ok(segs) ==> concat_texts(segs)
            == clean_chinese(chinese),
{
    lemma_align_from_round_trip(
        clean_chinese(chinese),
        clean_pinyin(pinyin),
        strict,
        lax,
        Seq::empty(),
        clean_chinese(chinese),
        pinyin,
    );
    assert(concat_texts(Seq::<SpecSegment>::empty()) + clean_chinese(chinese) =~= clean_chinese(
        chinese,
    ));
}

/// Alignment is deterministic: the outcome — including which error is
/// reported and the unresolved remainder it carries — is a function of the
/// inputs alone, whatever order candidates were examined in.
pub proof fn lemma_align_deterministic(
    r1: Result<Seq<SpecSegment>, SpecAlignError>,
    r2: Result<Seq<SpecSegment>, SpecAlignError>,
    chinese: Seq<char>,
    pinyin: Seq<char>,
    strict: bool,
    lax: bool,
)
    requires
        r1 == spec_align(chinese, pinyin, strict, lax),
        r2 == spec_align(chinese, pinyin, strict, lax),
    ensures
        r1 == r2,
{
}

} // verus!
