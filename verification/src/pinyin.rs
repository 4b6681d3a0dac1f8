//! Pinyin rendering and tone handling.
//!
//! Readings come out of the dictionary in the CC-CEDICT numbered form
//! (`ni3 hao3`); rendering turns the numbers into diacritics (`nǐ hǎo`).
//! Tone-insensitive comparison strips the diacritics again, character by
//! character.

use vstd::prelude::*;

use crate::text::{char_is_alphabetic, char_is_whitespace, is_alphabetic_char, is_whitespace_char};

verus! {

/// The diacritic-marked rendering of a numbered pinyin reading, as
/// `prettify_pinyin::prettify` computes it.
pub uninterp spec fn pretty_of(reading: Seq<char>) -> Seq<char>;

/// Relies on `prettify_pinyin::prettify`: renders trailing tone digits as
/// diacritics; the result depends on the characters alone.
#[verifier::external_body]
pub(crate) fn prettify_reading(s: &str) -> (r: String)
    ensures
        r@ == pretty_of(s@),
{
    prettify_pinyin::prettify(s)
}

/// The base letter of a tone-marked vowel; any other character is unchanged.
pub open spec fn strip_tone_spec(c: char) -> char {
    match c {
        'ā' | 'á' | 'ǎ' | 'à' => 'a',
        'ē' | 'é' | 'ě' | 'è' => 'e',
        'ū' | 'ú' | 'ǔ' | 'ù' => 'u',
        'ī' | 'í' | 'ǐ' | 'ì' => 'i',
        'ō' | 'ó' | 'ǒ' | 'ò' => 'o',
        'ǖ' | 'ǘ' | 'ǚ' | 'ǜ' => 'ü',
        'Ā' | 'Á' | 'Ǎ' | 'À' => 'A',
        'Ē' | 'É' | 'Ě' | 'È' => 'E',
        'Ū' | 'Ú' | 'Ǔ' | 'Ù' => 'U',
        'Ī' | 'Í' | 'Ǐ' | 'Ì' => 'I',
        'Ō' | 'Ó' | 'Ǒ' | 'Ò' => 'O',
        'Ǖ' | 'Ǘ' | 'Ǚ' | 'Ǜ' => 'U',
        _ => c,
    }
}

/// The base letter of a tone-marked vowel; any other character is unchanged.
pub fn strip_tone(c: char) -> (r: char)
    ensures
        r == strip_tone_spec(c),
{
    match c {
        'ā' | 'á' | 'ǎ' | 'à' => 'a',
        'ē' | 'é' | 'ě' | 'è' => 'e',
        'ū' | 'ú' | 'ǔ' | 'ù' => 'u',
        'ī' | 'í' | 'ǐ' | 'ì' => 'i',
        'ō' | 'ó' | 'ǒ' | 'ò' => 'o',
        'ǖ' | 'ǘ' | 'ǚ' | 'ǜ' => 'ü',
        'Ā' | 'Á' | 'Ǎ' | 'À' => 'A',
        'Ē' | 'É' | 'Ě' | 'È' => 'E',
        'Ū' | 'Ú' | 'Ǔ' | 'Ù' => 'U',
        'Ī' | 'Í' | 'Ǐ' | 'Ì' => 'I',
        'Ō' | 'Ó' | 'Ǒ' | 'Ò' => 'O',
        'Ǖ' | 'Ǘ' | 'Ǚ' | 'Ǜ' => 'U',
        _ => c,
    }
}

/// Tone-insensitive prefix removal: compares `input` and `prefix` character
/// by character under `strip_tone_spec`, requiring the whole prefix to be
/// consumed, and on success yields what is left of `input`. A base-letter
/// mismatch, or an input that runs out before the prefix does, yields
/// nothing.
pub open spec fn spec_strip_prefix_no_tones(input: Seq<char>, prefix: Seq<char>) -> Option<
    Seq<char>,
>
    decreases input.len(),
{
    if prefix.len() == 0 {
        Some(input)
    } else if input.len() == 0 {
        None
    } else if strip_tone_spec(prefix[0]) != strip_tone_spec(input[0]) {
        None
    } else {
        spec_strip_prefix_no_tones(input.skip(1), prefix.skip(1))
    }
}

/// An input shorter than the prefix never matches tone-insensitively.
proof fn lemma_strip_no_tones_short(input: Seq<char>, prefix: Seq<char>)
    requires
        input.len() < prefix.len(),
    ensures
        spec_strip_prefix_no_tones(input, prefix) is None,
    decreases input.len(),
{
    if input.len() == 0 {
    } else if strip_tone_spec(prefix[0]) != strip_tone_spec(input[0]) {
    } else {
        lemma_strip_no_tones_short(input.skip(1), prefix.skip(1));
    }
}

/// Tone-insensitive prefix removal over strings; see
/// `spec_strip_prefix_no_tones`.
pub fn strip_prefix_no_tones<'a>(input: &'a str, prefix: &str) -> (r: Option<&'a str>)
    ensures
        match r {
            Some(rest) => spec_strip_prefix_no_tones(input@, prefix@) == Some(rest@),
            None => spec_strip_prefix_no_tones(input@, prefix@) is None,
        },
{
    let ilen: usize = input.unicode_len();
    let plen: usize = prefix.unicode_len();
    if plen > ilen {
        proof {
            lemma_strip_no_tones_short(input@, prefix@);
        }
        return None;
    }
    let mut i: usize = 0;
    proof {
        assert(input@.skip(0) =~= input@);
        assert(prefix@.skip(0) =~= prefix@);
    }
    while i < plen
        invariant
            ilen == input@.len(),
            plen == prefix@.len(),
            plen <= ilen,
            i <= plen,
            spec_strip_prefix_no_tones(input@, prefix@) == spec_strip_prefix_no_tones(
                input@.skip(i as int),
                prefix@.skip(i as int),
            ),
        decreases plen - i,
    {
        let ci = input.get_char(i);
        let cp = prefix.get_char(i);
        proof {
            assert(input@.skip(i as int)[0] == input@[i as int]);
            assert(prefix@.skip(i as int)[0] == prefix@[i as int]);
            assert(input@.skip(i as int).skip(1) =~= input@.skip(i + 1));
            assert(prefix@.skip(i as int).skip(1) =~= prefix@.skip(i + 1));
        }
        if strip_tone(cp) != strip_tone(ci) {
            return None;
        }
        i = i + 1;
    }
    let rest = input.substring_char(plen, ilen);
    proof {
        assert(rest@ =~= input@.skip(plen as int));
    }
    Some(rest)
}

/// Whether the character counts as a pinyin vowel: a base vowel, `ü`, or any
/// of their tone-marked forms.
pub open spec fn is_vowel_spec(c: char) -> bool {
    match c {
        'a' | 'e' | 'i' | 'o' | 'u' | 'A' | 'E' | 'I' | 'O' | 'U' | 'ü' | 'Ü' => true,
        'ā' | 'á' | 'ǎ' | 'à' | 'ē' | 'é' | 'ě' | 'è' => true,
        'ī' | 'í' | 'ǐ' | 'ì' | 'ō' | 'ó' | 'ǒ' | 'ò' => true,
        'ū' | 'ú' | 'ǔ' | 'ù' | 'ǖ' | 'ǘ' | 'ǚ' | 'ǜ' => true,
        'Ā' | 'Á' | 'Ǎ' | 'À' | 'Ē' | 'É' | 'Ě' | 'È' => true,
        'Ī' | 'Í' | 'Ǐ' | 'Ì' | 'Ō' | 'Ó' | 'Ǒ' | 'Ò' => true,
        'Ū' | 'Ú' | 'Ǔ' | 'Ù' | 'Ǖ' | 'Ǘ' | 'Ǚ' | 'Ǜ' => true,
        _ => false,
    }
}

/// Whether the character counts as a pinyin vowel; see `is_vowel_spec`.
pub fn is_vowel(c: char) -> (r: bool)
    ensures
        r == is_vowel_spec(c),
{
    match c {
        'a' | 'e' | 'i' | 'o' | 'u' | 'A' | 'E' | 'I' | 'O' | 'U' | 'ü' | 'Ü' => true,
        'ā' | 'á' | 'ǎ' | 'à' | 'ē' | 'é' | 'ě' | 'è' => true,
        'ī' | 'í' | 'ǐ' | 'ì' | 'ō' | 'ó' | 'ǒ' | 'ò' => true,
        'ū' | 'ú' | 'ǔ' | 'ù' | 'ǖ' | 'ǘ' | 'ǚ' | 'ǜ' => true,
        'Ā' | 'Á' | 'Ǎ' | 'À' | 'Ē' | 'É' | 'Ě' | 'È' => true,
        'Ī' | 'Í' | 'Ǐ' | 'Ì' | 'Ō' | 'Ó' | 'Ǒ' | 'Ò' => true,
        'Ū' | 'Ú' | 'Ǔ' | 'Ù' | 'Ǖ' | 'Ǘ' | 'Ǚ' | 'Ǜ' => true,
        _ => false,
    }
}

/// Whether the character carries a tone mark.
pub open spec fn is_tone_mark(c: char) -> bool {
    strip_tone_spec(c) != c
}

/// End of the whitespace run that starts right after position `i`: the first
/// later position holding a non-whitespace character, or the end of the
/// sequence.
pub open spec fn ws_run_end(cs: Seq<char>, i: int) -> int
    decreases cs.len() - i,
{
    if i < 0 || i + 1 >= cs.len() {
        i + 1
    } else if is_whitespace_char(cs[i + 1]) {
        ws_run_end(cs, i + 1)
    } else {
        i + 1
    }
}

/// Whether the next character forces a syllable break after a vowel has
/// been seen: a consonant onset, but not an apostrophe, not `n` (a likely
/// coda), and not `g` right after `n` (the coda `ng`).
pub open spec fn splits_after(c: char, n: char) -> bool {
    &&& !(n == '\'' || n == '’')
    &&& !is_vowel_spec(n) && is_alphabetic_char(n)
    &&& !(n == 'n' || n == 'N')
    &&& !((c == 'n' || c == 'N') && (n == 'g' || n == 'G'))
}

/// One state of the syllable splitter: position `i`, the chunk being built,
/// whether it has seen a vowel, and the chunks already emitted.
pub open spec fn sw_loop(
    cs: Seq<char>,
    i: int,
    current: Seq<char>,
    seen_vowel: bool,
    parts: Seq<Seq<char>>,
) -> Seq<Seq<char>>
    decreases cs.len() - i,
{
    if i < 0 || i >= cs.len() {
        if current.len() > 0 {
            parts.push(current)
        } else {
            parts
        }
    } else {
        let c = cs[i];
        if is_whitespace_char(c) {
            let parts1 = if current.len() > 0 {
                parts.push(current)
            } else {
                parts
            };
            let sv1 = if current.len() > 0 {
                false
            } else {
                seen_vowel
            };
            let j0 = ws_run_end(cs, i);
            let j = if i + 1 <= j0 && j0 <= cs.len() {
                j0
            } else {
                i + 1
            };
            sw_loop(cs, j, cs.subrange(i, j), sv1, parts1)
        } else {
            let current1 = current.push(c);
            let sv1 = seen_vowel || is_vowel_spec(c);
            if i + 1 >= cs.len() {
                parts.push(current1)
            } else {
                let n = cs[i + 1];
                if sv1 && (is_whitespace_char(n) || splits_after(c, n)) {
                    sw_loop(cs, i + 1, Seq::empty(), false, parts.push(current1))
                } else {
                    sw_loop(cs, i + 1, current1, sv1, parts)
                }
            }
        }
    }
}

/// The syllable chunks of a pinyin string: split before each consonant
/// onset once a vowel has been seen, with whitespace kept at the front of
/// the chunk that follows it.
pub open spec fn spec_split_words(s: Seq<char>) -> Seq<Seq<char>> {
    sw_loop(s, 0, Seq::empty(), false, Seq::empty())
}

/// `ws_run_end` moves forward and stays within the sequence.
proof fn lemma_ws_run_end_bounds(cs: Seq<char>, i: int)
    requires
        0 <= i < cs.len(),
    ensures
        i + 1 <= ws_run_end(cs, i) <= cs.len(),
    decreases cs.len() - i,
{
    if i + 1 >= cs.len() {
    } else if is_whitespace_char(cs[i + 1]) {
        lemma_ws_run_end_bounds(cs, i + 1);
    } else {
    }
}

/// Best-effort splitting of pinyin into syllables; one can always separate
/// syllables with spaces where the heuristic goes wrong. The result is
/// exactly `spec_split_words`.
pub fn split_words(pinyin: &str) -> (r: Vec<String>)
    ensures
        r.deep_view() == spec_split_words(pinyin@),
{
    let n: usize = pinyin.unicode_len();
    let mut parts: Vec<String> = Vec::new();
    let mut current: String = String::new();
    let mut sv: bool = false;
    let mut i: usize = 0;
    proof {
        assert(parts.deep_view() =~= Seq::<Seq<char>>::empty());
        assert(current@ =~= Seq::<char>::empty());
    }
    while i < n
        invariant
            n == pinyin@.len(),
            i <= n,
            spec_split_words(pinyin@) == sw_loop(
                pinyin@,
                i as int,
                current@,
                sv,
                parts.deep_view(),
            ),
        decreases n - i,
    {
        let ghost parts0 = parts.deep_view();
        let ghost current0 = current@;
        let c = pinyin.get_char(i);
        if char_is_whitespace(c) {
            if !current.as_str().is_empty() {
                parts.push(current);
                current = String::new();
                sv = false;
                proof {
                    assert(parts.deep_view() =~= parts0.push(current0));
                }
            }
            let mut j: usize = i + 1;
            while j < n && char_is_whitespace(pinyin.get_char(j))
                invariant
                    n == pinyin@.len(),
                    i < j <= n,
                    ws_run_end(pinyin@, i as int) == ws_run_end(pinyin@, j - 1),
                decreases n - j,
            {
                j = j + 1;
            }
            proof {
                assert(ws_run_end(pinyin@, j - 1) == j);
            }
            let run = pinyin.substring_char(i, j);
            current = run.to_owned();
            proof {
                assert(current@ =~= pinyin@.subrange(i as int, j as int));
            }
            i = j;
        } else {
            let one = pinyin.substring_char(i, i + 1);
            proof {
                assert(one@ =~= seq![pinyin@[i as int]]);
                assert(current0 + one@ =~= current0.push(pinyin@[i as int]));
            }
            current.append(one);
            if is_vowel(c) {
                sv = true;
            }
            if i + 1 >= n {
                parts.push(current);
                current = String::new();
                sv = false;
                proof {
                    assert(parts.deep_view() =~= parts0.push(current0.push(pinyin@[i as int])));
                    assert(current@ =~= Seq::<char>::empty());
                }
            } else {
                let nch = pinyin.get_char(i + 1);
                let split = if sv {
                    if char_is_whitespace(nch) {
                        true
                    } else {
                        !(nch == '\'' || nch == '’') && (!is_vowel(nch) && char_is_alphabetic(nch))
                            && !(nch == 'n' || nch == 'N') && !((c == 'n' || c == 'N') && (nch
                            == 'g' || nch == 'G'))
                    }
                } else {
                    false
                };
                if split {
                    parts.push(current);
                    current = String::new();
                    sv = false;
                    proof {
                        assert(parts.deep_view() =~= parts0.push(
                            current0.push(pinyin@[i as int]),
                        ));
                        assert(current@ =~= Seq::<char>::empty());
                    }
                }
            }
            i = i + 1;
        }
    }
    if !current.as_str().is_empty() {
        let ghost parts0 = parts.deep_view();
        let ghost current0 = current@;
        parts.push(current);
        proof {
            assert(parts.deep_view() =~= parts0.push(current0));
        }
    }
    parts
}

/// Whether some character of the sequence carries a tone mark.
pub open spec fn spec_has_tone_mark(s: Seq<char>) -> bool {
    exists|k: int| 0 <= k < s.len() && is_tone_mark(#[trigger] s[k])
}

/// Whether some character of the string carries a tone mark.
pub fn has_tone_mark(s: &str) -> (r: bool)
    ensures
        r == spec_has_tone_mark(s@),
{
    let n: usize = s.unicode_len();
    let mut i: usize = 0;
    while i < n
        invariant
            n == s@.len(),
            i <= n,
            forall|k: int| 0 <= k < i ==> !is_tone_mark(#[trigger] s@[k]),
        decreases n - i,
    {
        let c = s.get_char(i);
        if strip_tone(c) != c {
            proof {
                assert(is_tone_mark(s@[i as int]));
            }
            return true;
        }
        i = i + 1;
    }
    false
}

/// Position of the last non-whitespace character, if any.
pub open spec fn last_non_ws(s: Seq<char>) -> Option<int>
    decreases s.len(),
{
    if s.len() == 0 {
        None
    } else if !is_whitespace_char(s.last()) {
        Some(s.len() - 1)
    } else {
        last_non_ws(s.drop_last())
    }
}

/// Whether the character is a tone number.
pub open spec fn is_tone_digit(c: char) -> bool {
    c == '1' || c == '2' || c == '3' || c == '4' || c == '5'
}

/// Position of the first chunk from `i` on without a tone mark, if any.
pub open spec fn first_without_mark_from(chunks: Seq<Seq<char>>, i: int) -> Option<int>
    decreases chunks.len() - i,
{
    if i < 0 || i >= chunks.len() {
        None
    } else if !spec_has_tone_mark(chunks[i]) {
        Some(i)
    } else {
        first_without_mark_from(chunks, i + 1)
    }
}

/// Position of the last chunk at or before `i` with a tone mark, if any.
pub open spec fn last_with_mark_from(chunks: Seq<Seq<char>>, i: int) -> Option<int>
    decreases i + 1,
{
    if i < 0 || i >= chunks.len() {
        None
    } else if spec_has_tone_mark(chunks[i]) {
        Some(i)
    } else {
        last_with_mark_from(chunks, i - 1)
    }
}

/// The renderings of the chunks, concatenated in order.
pub open spec fn concat_pretty(chunks: Seq<Seq<char>>) -> Seq<char>
    decreases chunks.len(),
{
    if chunks.len() == 0 {
        Seq::empty()
    } else {
        concat_pretty(chunks.drop_last()) + pretty_of(chunks.last())
    }
}

/// What applying a trailing tone number to a pinyin string yields. Without a
/// trailing tone number the whole string is rendered as it stands. With one,
/// the number is taken out and the string split into syllable chunks: tones
/// one to four go to the first chunk that has no tone mark yet (or, failing
/// that, to the last chunk), the neutral tone five to the last chunk that
/// has one; the chunks are then rendered and joined.
pub open spec fn spec_apply_tones(s: Seq<char>) -> Seq<char> {
    match last_non_ws(s) {
        None => pretty_of(s),
        Some(i) => {
            if !is_tone_digit(s[i]) {
                pretty_of(s)
            } else {
                let d = s[i];
                let base = s.take(i) + s.skip(i + 1);
                let chunks = spec_split_words(base);
                let chunks1 = if d == '5' {
                    match last_with_mark_from(chunks, chunks.len() - 1) {
                        Some(k) => chunks.update(k, chunks[k].push('5')),
                        None => chunks,
                    }
                } else {
                    match first_without_mark_from(chunks, 0) {
                        Some(k) => chunks.update(k, chunks[k].push(d)),
                        None => if chunks.len() > 0 {
                            chunks.update(chunks.len() - 1, chunks.last().push(d))
                        } else {
                            chunks
                        },
                    }
                };
                concat_pretty(chunks1)
            }
        },
    }
}

/// Apply a trailing tone number to a pinyin string; see `spec_apply_tones`.
/// Tone numbers one to four mark the first syllable without a tone mark;
/// the neutral tone five clears the mark of the last marked syllable.
pub fn apply_tones(pinyin: &str) -> (r: String)
    ensures
        r@ == spec_apply_tones(pinyin@),
{
    let n: usize = pinyin.unicode_len();
    let mut li: usize = n;
    proof {
        assert(pinyin@.take(n as int) =~= pinyin@);
    }
    while li > 0 && char_is_whitespace(pinyin.get_char(li - 1))
        invariant
            n == pinyin@.len(),
            li <= n,
            last_non_ws(pinyin@) == last_non_ws(pinyin@.take(li as int)),
        decreases li,
    {
        proof {
            assert(pinyin@.take(li as int).drop_last() =~= pinyin@.take(li - 1));
            assert(pinyin@.take(li as int).last() == pinyin@[li - 1]);
        }
        li = li - 1;
    }
    if li == 0 {
        return prettify_reading(pinyin);
    }
    proof {
        assert(pinyin@.take(li as int).last() == pinyin@[li - 1]);
        assert(last_non_ws(pinyin@) == Some(li - 1));
    }
    let di: usize = li - 1;
    let d = pinyin.get_char(di);
    if !(d == '1' || d == '2' || d == '3' || d == '4' || d == '5') {
        return prettify_reading(pinyin);
    }
    let left = pinyin.substring_char(0, di);
    let right = pinyin.substring_char(di + 1, n);
    let mut base = left.to_owned();
    base.append(right);
    proof {
        assert(base@ =~= pinyin@.take(di as int) + pinyin@.skip(di + 1));
    }
    let d_str = pinyin.substring_char(di, di + 1);
    proof {
        assert(d_str@ =~= seq![d]);
    }
    let mut chunks = split_words(base.as_str());
    let ghost chunks0 = chunks.deep_view();
    let cn: usize = chunks.len();
    if d == '5' {
        let mut k: usize = cn;
        while k > 0 && !has_tone_mark(chunks[k - 1].as_str())
            invariant
                cn == chunks@.len(),
                chunks.deep_view() == chunks0,
                k <= cn,
                last_with_mark_from(chunks0, cn - 1) == last_with_mark_from(chunks0, k - 1),
            decreases k,
        {
            proof {
                assert(chunks0[k - 1] == chunks@[k - 1]@);
            }
            k = k - 1;
        }
        if k > 0 {
            proof {
                assert(chunks0[k - 1] == chunks@[k - 1]@);
                assert(last_with_mark_from(chunks0, cn - 1) == Some(k - 1));
            }
            let mut picked = chunks[k - 1].clone();
            picked.append(d_str);
            proof {
                assert(picked@ =~= chunks0[k - 1].push('5'));
            }
            chunks.set(k - 1, picked);
            proof {
                assert(chunks.deep_view() =~= chunks0.update(
                    k - 1,
                    chunks0[k - 1].push('5'),
                ));
            }
        }
    } else {
        let mut k: usize = 0;
        while k < cn && has_tone_mark(chunks[k].as_str())
            invariant
                cn == chunks@.len(),
                chunks.deep_view() == chunks0,
                k <= cn,
                first_without_mark_from(chunks0, 0) == first_without_mark_from(chunks0, k as int),
            decreases cn - k,
        {
            proof {
                assert(chunks0[k as int] == chunks@[k as int]@);
            }
            k = k + 1;
        }
        if k < cn {
            proof {
                assert(chunks0[k as int] == chunks@[k as int]@);
                assert(first_without_mark_from(chunks0, 0) == Some(k as int));
            }
            let mut picked = chunks[k].clone();
            picked.append(d_str);
            proof {
                assert(picked@ =~= chunks0[k as int].push(d));
            }
            chunks.set(k, picked);
            proof {
                assert(chunks.deep_view() =~= chunks0.update(
                    k as int,
                    chunks0[k as int].push(d),
                ));
            }
        } else if cn > 0 {
            proof {
                assert(first_without_mark_from(chunks0, 0) is None);
            }
            let mut picked = chunks[cn - 1].clone();
            picked.append(d_str);
            proof {
                assert(picked@ =~= chunks0[cn - 1].push(d));
            }
            chunks.set(cn - 1, picked);
            proof {
                assert(chunks.deep_view() =~= chunks0.update(
                    cn - 1,
                    chunks0[cn - 1].push(d),
                ));
            }
        }
    }
    let ghost chunks1 = chunks.deep_view();
    let mut out = String::new();
    let m: usize = chunks.len();
    let mut idx: usize = 0;
    proof {
        assert(chunks1.take(0) =~= Seq::<Seq<char>>::empty());
    }
    while idx < m
        invariant
            m == chunks@.len(),
            chunks.deep_view() == chunks1,
            idx <= m,
            out@ == concat_pretty(chunks1.take(idx as int)),
        decreases m - idx,
    {
        proof {
            assert(chunks1.take(idx + 1).drop_last() =~= chunks1.take(idx as int));
            assert(chunks1.take(idx + 1).last() == chunks1[idx as int]);
            assert(chunks1[idx as int] == chunks@[idx as int]@);
        }
        let pretty = prettify_reading(chunks[idx].as_str());
        out.append(pretty.as_str());
        idx = idx + 1;
    }
    proof {
        assert(chunks1.take(m as int) =~= chunks1);
    }
    out
}

/// Whether a typed answer matches a segment's reading: compared lowercased
/// and with all whitespace removed, the answer trimmed first.
pub fn answer_matches(expected: &str, input: &str) -> (r: bool)
    ensures
        r == (crate::text::lower_of(expected@).filter(|c: char| !is_whitespace_char(c))
            == crate::text::lower_of(crate::text::trim_of(input@)).filter(
            |c: char| !is_whitespace_char(c),
        )),
{
    let e1 = crate::text::to_lowercase_str(expected);
    let e2 = crate::text::remove_whitespace(e1.as_str());
    let i0 = crate::text::trim_str(input);
    let i1 = crate::text::to_lowercase_str(i0);
    let i2 = crate::text::remove_whitespace(i1.as_str());
    crate::text::str_eq(e2.as_str(), i2.as_str())
}

} // verus!
