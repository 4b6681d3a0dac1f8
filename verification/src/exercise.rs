//! The drill record: a segmented Chinese sentence with its translation, and
//! the parser that reads records out of a raw transcript.

use vstd::prelude::*;

use crate::align::{spec_align, AlignError, SpecAlignError};
use crate::text::{find_char, split_once_char, str_eq, trim_of, trim_str};

verus! {

/// Mathematical value of a `Segment`: the segment text and its reading.
#[verifier::ext_equal]
pub ghost struct SpecSegment {
    pub chinese: Seq<char>,
    pub pinyin: Seq<char>,
}

/// One aligned unit of a drill record: a dictionary word with its rendered
/// reading, or a run of unaligned characters with an empty reading.
#[derive(Debug, PartialEq, Eq)]
pub struct Segment {
    pub chinese: String,
    pub pinyin: String,
}

impl View for Segment {
    type V = SpecSegment;

    open spec fn view(&self) -> SpecSegment {
        SpecSegment { chinese: self.chinese@, pinyin: self.pinyin@ }
    }
}

impl Clone for Segment {
    fn clone(&self) -> (res: Self)
        ensures
            res == *self,
    {
        Segment { chinese: self.chinese.clone(), pinyin: self.pinyin.clone() }
    }
}

/// Mathematical value of an `Exercise`.
#[verifier::ext_equal]
pub ghost struct SpecExercise {
    pub segments: Seq<SpecSegment>,
    pub english: Seq<char>,
}

/// A drill record: ordered segments and the English translation.
#[derive(Debug, PartialEq, Eq)]
pub struct Exercise {
    pub segments: Vec<Segment>,
    pub english: String,
}

impl View for Exercise {
    type V = SpecExercise;

    open spec fn view(&self) -> SpecExercise {
        SpecExercise {
            segments: self.segments@.map_values(|s: Segment| s@),
            english: self.english@,
        }
    }
}

impl Clone for Exercise {
    fn clone(&self) -> (res: Self)
        ensures
            res@ == self@,
            res.segments@ == self.segments@,
            res.english == self.english,
    {
        let mut segments: Vec<Segment> = Vec::new();
        let n: usize = self.segments.len();
        let mut i: usize = 0;
        while i < n
            invariant
                n == self.segments.len(),
                i <= n,
                segments@.len() == i,
                forall|j: int| 0 <= j < i ==> segments@[j] == self.segments@[j],
            decreases n - i,
        {
            segments.push(self.segments[i].clone());
            i = i + 1;
        }
        proof {
            assert(segments@ =~= self.segments@);
        }
        let res = Exercise { segments, english: self.english.clone() };
        proof {
            assert(res@ =~= self@);
        }
        res
    }
}

/// The concatenation of the segment texts, in order.
pub open spec fn concat_texts(segs: Seq<SpecSegment>) -> Seq<char>
    decreases segs.len(),
{
    if segs.len() == 0 {
        Seq::empty()
    } else {
        concat_texts(segs.drop_last()) + segs.last().chinese
    }
}

/// The non-empty readings of the segments, joined with single spaces.
pub open spec fn joined_readings(segs: Seq<SpecSegment>) -> Seq<char>
    decreases segs.len(),
{
    if segs.len() == 0 {
        Seq::empty()
    } else {
        let rest = joined_readings(segs.drop_last());
        let r = segs.last().pinyin;
        if r.len() == 0 {
            rest
        } else if rest.len() == 0 {
            r
        } else {
            rest + seq![' '] + r
        }
    }
}

/// The texts of the segments with a non-empty reading, in first-occurrence
/// order and without duplicates.
pub open spec fn distinct_words_of(segs: Seq<SpecSegment>) -> Seq<Seq<char>>
    decreases segs.len(),
{
    if segs.len() == 0 {
        Seq::empty()
    } else {
        let prev = distinct_words_of(segs.drop_last());
        let s = segs.last();
        if s.pinyin.len() == 0 || prev.contains(s.chinese) {
            prev
        } else {
            prev.push(s.chinese)
        }
    }
}

/// Structural equality of two drill records, decided field by field and
/// specified against their mathematical values.
pub fn exercise_eq(a: &Exercise, b: &Exercise) -> (r: bool)
    ensures
        r == (a@ == b@),
{
    if !str_eq(a.english.as_str(), b.english.as_str()) {
        proof {
            assert(a@.english != b@.english);
        }
        return false;
    }
    let n: usize = a.segments.len();
    if n != b.segments.len() {
        proof {
            assert(a@.segments.len() != b@.segments.len());
        }
        return false;
    }
    let mut i: usize = 0;
    while i < n
        invariant
            n == a.segments@.len(),
            n == b.segments@.len(),
            i <= n,
            forall|j: int| 0 <= j < i ==> #[trigger] a@.segments[j] == b@.segments[j],
        decreases n - i,
    {
        proof {
            assert(a@.segments[i as int] == a.segments@[i as int]@);
            assert(b@.segments[i as int] == b.segments@[i as int]@);
        }
        if !str_eq(a.segments[i].chinese.as_str(), b.segments[i].chinese.as_str()) {
            proof {
                assert(a@.segments[i as int].chinese != b@.segments[i as int].chinese);
            }
            return false;
        }
        if !str_eq(a.segments[i].pinyin.as_str(), b.segments[i].pinyin.as_str()) {
            proof {
                assert(a@.segments[i as int].pinyin != b@.segments[i as int].pinyin);
            }
            return false;
        }
        proof {
            assert(a@.segments[i as int] =~= b@.segments[i as int]);
        }
        i = i + 1;
    }
    proof {
        assert(a@.segments =~= b@.segments);
        assert(a@ =~= b@);
    }
    true
}

/// Whether some string in `v` has the view `w`.
pub fn vec_contains_str(v: &Vec<String>, w: &str) -> (r: bool)
    ensures
        r == v.deep_view().contains(w@),
{
    let n: usize = v.len();
    let mut i: usize = 0;
    while i < n
        invariant
            n == v@.len(),
            i <= n,
            forall|j: int| 0 <= j < i ==> v.deep_view()[j] != w@,
        decreases n - i,
    {
        if crate::text::str_eq(v[i].as_str(), w) {
            proof {
                assert(v.deep_view()[i as int] == w@);
            }
            return true;
        }
        i = i + 1;
    }
    false
}

impl Exercise {
    /// The distinct words of the record: the text of every segment with a
    /// non-empty reading, first occurrences only, in order.
    pub fn words(&self) -> (r: Vec<String>)
        ensures
            r.deep_view() == distinct_words_of(self@.segments),
    {
        let mut out: Vec<String> = Vec::new();
        let n: usize = self.segments.len();
        let mut i: usize = 0;
        proof {
            assert(self@.segments.take(0) =~= Seq::<SpecSegment>::empty());
        }
        while i < n
            invariant
                n == self.segments.len(),
                i <= n,
                out.deep_view() == distinct_words_of(self@.segments.take(i as int)),
            decreases n - i,
        {
            let seg = &self.segments[i];
            proof {
                assert(self@.segments.take(i + 1).drop_last() =~= self@.segments.take(i as int));
                assert(self@.segments.take(i + 1).last() == self@.segments[i as int]);
            }
            if !seg.pinyin.as_str().is_empty() && !vec_contains_str(&out, seg.chinese.as_str()) {
                let ghost prev = out.deep_view();
                out.push(seg.chinese.clone());
                proof {
                    assert(out.deep_view() =~= prev.push(seg.chinese@));
                }
            }
            i = i + 1;
        }
        proof {
            assert(self@.segments.take(n as int) =~= self@.segments);
        }
        out
    }

    /// The full Chinese text: the segment texts concatenated in order.
    pub fn chinese(&self) -> (r: String)
        ensures
            r@ == concat_texts(self@.segments),
    {
        let mut out = String::new();
        let n: usize = self.segments.len();
        let mut i: usize = 0;
        proof {
            assert(self@.segments.take(0) =~= Seq::<SpecSegment>::empty());
        }
        while i < n
            invariant
                n == self.segments.len(),
                i <= n,
                out@ == concat_texts(self@.segments.take(i as int)),
            decreases n - i,
        {
            proof {
                assert(self@.segments.take(i + 1).drop_last() =~= self@.segments.take(i as int));
                assert(self@.segments.take(i + 1).last() == self@.segments[i as int]);
            }
            out.append(self.segments[i].chinese.as_str());
            i = i + 1;
        }
        proof {
            assert(self@.segments.take(n as int) =~= self@.segments);
        }
        out
    }

    /// The full reading: the non-empty segment readings joined with spaces.
    pub fn pinyin(&self) -> (r: String)
        ensures
            r@ == joined_readings(self@.segments),
    {
        let mut out = String::new();
        let n: usize = self.segments.len();
        let mut i: usize = 0;
        proof {
            assert(self@.segments.take(0) =~= Seq::<SpecSegment>::empty());
        }
        while i < n
            invariant
                n == self.segments.len(),
                i <= n,
                out@ == joined_readings(self@.segments.take(i as int)),
            decreases n - i,
        {
            let seg = &self.segments[i];
            proof {
                assert(self@.segments.take(i + 1).drop_last() =~= self@.segments.take(i as int));
                assert(self@.segments.take(i + 1).last() == self@.segments[i as int]);
            }
            if !seg.pinyin.as_str().is_empty() {
                if !out.as_str().is_empty() {
                    out.append(" ");
                    proof {
                        reveal_strlit(" ");
                        assert(" "@ =~= seq![' ']);
                    }
                }
                out.append(seg.pinyin.as_str());
            }
            i = i + 1;
        }
        proof {
            assert(self@.segments.take(n as int) =~= self@.segments);
        }
        out
    }
}

/// Why parsing a transcript record failed.
#[verifier::ext_equal]
pub ghost enum SpecParseError {
    /// The record is missing one of the three `Chinese:` / `Pinyin:` /
    /// `English:` lines, or holds a line with another key or no key at all.
    MalformedRecord,
    /// The three lines were read, but aligning them failed.
    Align(SpecAlignError),
}

/// Why parsing a transcript record failed; see `SpecParseError`.
#[derive(Debug, PartialEq, Eq)]
pub enum ParseError {
    MalformedRecord,
    Align(AlignError),
}

impl View for ParseError {
    type V = SpecParseError;

    open spec fn view(&self) -> SpecParseError {
        match self {
            ParseError::MalformedRecord => SpecParseError::MalformedRecord,
            ParseError::Align(e) => SpecParseError::Align(e@),
        }
    }
}

/// The first line of `s` and everything after it; without a newline the
/// whole of `s` is the line and nothing is left.
pub open spec fn spec_split_line(s: Seq<char>) -> (Seq<char>, Seq<char>) {
    match find_char(s, '\n') {
        Some(i) => (s.take(i), s.skip(i + 1)),
        None => (s, Seq::empty()),
    }
}

/// Reading one record line: the text before the first `:` must be exactly
/// the expected key, and the trimmed text after it is the field's value. A
/// line without `:` or with any other key spoils the record.
pub open spec fn parse_field(line: Seq<char>, key: Seq<char>) -> Option<Seq<char>> {
    match find_char(line, ':') {
        None => None,
        Some(i) => {
            if line.take(i) == key {
                Some(trim_of(line.skip(i + 1)))
            } else {
                None
            }
        },
    }
}

/// What parsing one transcript record yields: the input is trimmed, its
/// first three lines must carry the `Chinese`, `Pinyin` and `English`
/// fields in exactly that order, the Chinese and Pinyin fields are aligned,
/// and the rest of the input is handed back for the next record. A missing,
/// misnamed or out-of-order key makes the record malformed.
pub open spec fn spec_parse(input: Seq<char>, strict: bool, lax: bool) -> Result<
    (SpecExercise, Seq<char>),
    SpecParseError,
> {
    let t = trim_of(input);
    let (l1, r1) = spec_split_line(t);
    let (l2, r2) = spec_split_line(r1);
    let (l3, r3) = spec_split_line(r2);
    match (parse_field(l1, "Chinese"@), parse_field(l2, "Pinyin"@), parse_field(
        l3,
        "English"@,
    )) {
        (Some(c), Some(p), Some(e)) => match spec_align(c, p, strict, lax) {
            Ok(segs) => Ok((SpecExercise { segments: segs, english: e }, r3)),
            Err(ae) => Err(SpecParseError::Align(ae)),
        },
        _ => Err(SpecParseError::MalformedRecord),
    }
}

/// The mathematical value of a parse result.
pub open spec fn parse_result_view(r: Result<(Exercise, String), ParseError>) -> Result<
    (SpecExercise, Seq<char>),
    SpecParseError,
> {
    match r {
        Ok((ex, rest)) => Ok((ex@, rest@)),
        Err(e) => Err(e@),
    }
}

/// The first line of `s` and everything after it; see `spec_split_line`.
fn split_line_exec<'a>(s: &'a str) -> (r: (&'a str, &'a str))
    ensures
        r.0@ == spec_split_line(s@).0,
        r.1@ == spec_split_line(s@).1,
{
    match split_once_char(s, '\n') {
        Some((line, rest)) => (line, rest),
        None => {
            let n: usize = s.unicode_len();
            let empty = s.substring_char(n, n);
            proof {
                assert(empty@ =~= Seq::<char>::empty());
            }
            (s, empty)
        },
    }
}

/// Read one record line under its expected key; see `parse_field`.
fn read_field(line: &str, key: &str) -> (r: Option<String>)
    ensures
        match r {
            Some(v) => parse_field(line@, key@) == Some(v@),
            None => parse_field(line@, key@) is None,
        },
{
    match split_once_char(line, ':') {
        None => None,
        Some((found_key, value)) => {
            if str_eq(found_key, key) {
                Some(trim_str(value).to_owned())
            } else {
                None
            }
        },
    }
}

impl Exercise {
    /// Parse one record from the front of a transcript: the `Chinese:`,
    /// `Pinyin:` and `English:` lines in that fixed order, aligned into a
    /// drill record, with the unread rest of the input. The result is
    /// exactly `spec_parse` of the input.
    pub fn parse(input: &str, strict_segmentation: bool, lax_pinyin: bool) -> (r: Result<
        (Exercise, String),
        ParseError,
    >)
        ensures
            parse_result_view(r) == spec_parse(input@, strict_segmentation, lax_pinyin),
    {
        let t = trim_str(input);
        let (l1, r1) = split_line_exec(t);
        let (l2, r2) = split_line_exec(r1);
        let (l3, r3) = split_line_exec(r2);
        let c = read_field(l1, "Chinese");
        let p = read_field(l2, "Pinyin");
        let e = read_field(l3, "English");
        match (c, p, e) {
            (Some(cv), Some(pv), Some(ev)) => {
                match Segment::join_with(
                    cv.as_str(),
                    pv.as_str(),
                    strict_segmentation,
                    lax_pinyin,
                ) {
                    Ok(segments) => {
                        let ex = Exercise { segments, english: ev };
                        let rest = r3.to_owned();
                        proof {
                            assert(ex@ =~= spec_parse(
                                input@,
                                strict_segmentation,
                                lax_pinyin,
                            )->Ok_0.0);
                        }
                        Ok((ex, rest))
                    },
                    Err(ae) => Err(ParseError::Align(ae)),
                }
            },
            _ => Err(ParseError::MalformedRecord),
        }
    }
}

/// The first segment position whose non-empty reading carries the word `w`.
pub open spec fn first_word_pos(segs: Seq<SpecSegment>, w: Seq<char>) -> int
    decreases segs.len(),
{
    if segs.len() == 0 {
        0
    } else {
        let prev = first_word_pos(segs.drop_last(), w);
        if prev < segs.len() - 1 {
            prev
        } else if segs.last().pinyin.len() > 0 && segs.last().chinese == w {
            segs.len() - 1
        } else {
            segs.len() as int
        }
    }
}

/// Word extraction is faithful: the distinct-word list of a record holds no
/// duplicates, every entry is the text of some segment with a non-empty
/// reading, every such segment text appears, and entries are ordered by the
/// position of their first occurrence.
pub proof fn lemma_distinct_words(segs: Seq<SpecSegment>)
    ensures
        forall|i: int, j: int|
            0 <= i < j < distinct_words_of(segs).len() ==> distinct_words_of(segs)[i]
                != distinct_words_of(segs)[j],
        forall|k: int|
            0 <= k < segs.len() && segs[k].pinyin.len() > 0 ==> distinct_words_of(segs).contains(
                segs[k].chinese,
            ),
        forall|i: int|
            0 <= i < distinct_words_of(segs).len() ==> {
                let p = first_word_pos(segs, #[trigger] distinct_words_of(segs)[i]);
                &&& 0 <= p < segs.len()
                &&& segs[p].pinyin.len() > 0
                &&& segs[p].chinese == distinct_words_of(segs)[i]
            },
        forall|i: int, j: int|
            0 <= i < j < distinct_words_of(segs).len() ==> first_word_pos(
                segs,
                distinct_words_of(segs)[i],
            ) < first_word_pos(segs, distinct_words_of(segs)[j]),
    decreases segs.len(),
{
    if segs.len() == 0 {
    } else {
        let prev = segs.drop_last();
        lemma_distinct_words(prev);
        let dw = distinct_words_of(segs);
        let dwp = distinct_words_of(prev);
        assert(forall|k: int| 0 <= k < prev.len() ==> prev[k] == segs[k]);
        assert forall|w: Seq<char>| dwp.contains(w) implies first_word_pos(prev, w)
            == first_word_pos(segs, w) && first_word_pos(prev, w) < segs.len() - 1 by {
            lemma_first_word_pos_step(segs, w);
        }
        if segs.last().pinyin.len() > 0 && !dwp.contains(segs.last().chinese) {
            let w = segs.last().chinese;
            assert(dw == dwp.push(w));
            assert(first_word_pos(segs, w) == segs.len() - 1) by {
                lemma_first_word_pos_not_found(prev, w);
            }
            assert forall|k: int|
                0 <= k < segs.len() && segs[k].pinyin.len() > 0 implies dw.contains(
                segs[k].chinese,
            ) by {
                if k < segs.len() - 1 {
                    assert(dwp.contains(segs[k].chinese));
                    let idx = choose|idx: int|
                        0 <= idx < dwp.len() && dwp[idx] == segs[k].chinese;
                    assert(dw[idx] == segs[k].chinese);
                } else {
                    assert(dw[dw.len() - 1] == w);
                }
            }
            assert forall|i: int, j: int| 0 <= i < j < dw.len() implies first_word_pos(
                segs,
                dw[i],
            ) < first_word_pos(segs, dw[j]) by {
                if j < dw.len() - 1 {
                } else {
                    assert(dw[j] == w);
                    assert(dwp.contains(dw[i])) by {
                        assert(dwp[i] == dw[i]);
                    }
                }
            }
        } else {
            assert(dw == dwp);
            assert forall|k: int|
                0 <= k < segs.len() && segs[k].pinyin.len() > 0 implies dw.contains(
                segs[k].chinese,
            ) by {
                if k < segs.len() - 1 {
                    assert(dwp.contains(segs[k].chinese));
                }
            }
        }
        assert forall|i: int| 0 <= i < dw.len() implies {
            let p = first_word_pos(segs, #[trigger] dw[i]);
            &&& 0 <= p < segs.len()
            &&& segs[p].pinyin.len() > 0
            &&& segs[p].chinese == dw[i]
        } by {
            assert(dw.contains(dw[i]));
            lemma_first_word_pos_found(segs, dw[i]);
        }
    }
}

/// `first_word_pos` stays within `0 .. segs.len()` when the word occurs, and
/// equals `segs.len()` when it does not.
pub proof fn lemma_first_word_pos_bounds(segs: Seq<SpecSegment>)
    ensures
        forall|w: Seq<char>| 0 <= #[trigger] first_word_pos(segs, w) <= segs.len(),
    decreases segs.len(),
{
    if segs.len() == 0 {
    } else {
        lemma_first_word_pos_bounds(segs.drop_last());
        assert forall|w: Seq<char>| 0 <= #[trigger] first_word_pos(segs, w) <= segs.len() by {
            assert(0 <= first_word_pos(segs.drop_last(), w) <= segs.len() - 1);
        }
    }
}

/// A word already present among the distinct words of a prefix keeps its
/// first position when one more segment is appended.
proof fn lemma_first_word_pos_step(segs: Seq<SpecSegment>, w: Seq<char>)
    requires
        segs.len() > 0,
        distinct_words_of(segs.drop_last()).contains(w),
    ensures
        first_word_pos(segs, w) == first_word_pos(segs.drop_last(), w),
        first_word_pos(segs.drop_last(), w) < segs.len() - 1,
{
    lemma_first_word_pos_found(segs.drop_last(), w);
}

/// A word among the distinct words of `segs` has a real first occurrence:
/// its first position is inside the sequence and carries it.
pub proof fn lemma_first_word_pos_found(segs: Seq<SpecSegment>, w: Seq<char>)
    requires
        distinct_words_of(segs).contains(w),
    ensures
        0 <= first_word_pos(segs, w) < segs.len(),
        segs[first_word_pos(segs, w)].pinyin.len() > 0,
        segs[first_word_pos(segs, w)].chinese == w,
    decreases segs.len(),
{
    if segs.len() == 0 {
    } else {
        let prev = segs.drop_last();
        lemma_first_word_pos_bounds(prev);
        if distinct_words_of(prev).contains(w) {
            lemma_first_word_pos_found(prev, w);
        } else {
            assert(segs.last().pinyin.len() > 0 && segs.last().chinese == w);
            assert(first_word_pos(prev, w) == prev.len()) by {
                lemma_first_word_pos_not_found(prev, w);
            }
        }
    }
}

/// A word not among the distinct words of `segs` has first position
/// `segs.len()`.
proof fn lemma_first_word_pos_not_found(segs: Seq<SpecSegment>, w: Seq<char>)
    requires
        !distinct_words_of(segs).contains(w),
    ensures
        first_word_pos(segs, w) == segs.len(),
    decreases segs.len(),
{
    if segs.len() == 0 {
    } else {
        let prev = segs.drop_last();
        if distinct_words_of(prev).contains(w) {
            lemma_distinct_prefix_contains(segs, w);
            assert(false);
        }
        lemma_first_word_pos_not_found(prev, w);
        if segs.last().pinyin.len() > 0 && segs.last().chinese == w {
            lemma_distinct_last_contains(segs, w);
            assert(false);
        }
    }
}

/// Distinct words of a prefix stay distinct words of the whole sequence.
proof fn lemma_distinct_prefix_contains(segs: Seq<SpecSegment>, w: Seq<char>)
    requires
        segs.len() > 0,
        distinct_words_of(segs.drop_last()).contains(w),
    ensures
        distinct_words_of(segs).contains(w),
{
    let dwp = distinct_words_of(segs.drop_last());
    let dw = distinct_words_of(segs);
    let idx = choose|idx: int| 0 <= idx < dwp.len() && dwp[idx] == w;
    if segs.last().pinyin.len() == 0 || dwp.contains(segs.last().chinese) {
        assert(dw[idx] == w);
    } else {
        assert(dw[idx] == w);
    }
}

/// The last segment's word, when it has a reading, is a distinct word.
proof fn lemma_distinct_last_contains(segs: Seq<SpecSegment>, w: Seq<char>)
    requires
        segs.len() > 0,
        segs.last().pinyin.len() > 0,
        segs.last().chinese == w,
    ensures
        distinct_words_of(segs).contains(w),
{
    let dwp = distinct_words_of(segs.drop_last());
    let dw = distinct_words_of(segs);
    if dwp.contains(w) {
        lemma_distinct_prefix_contains(segs, w);
    } else {
        assert(dw[dw.len() - 1] == w);
    }
}

} // verus!
