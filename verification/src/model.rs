//! The scheduling engine: the learner's per-word memory model and review
//! history, word selection, and drill-record scoring.

use vstd::prelude::*;

use crate::exercise::{distinct_words_of, exercise_eq, vec_contains_str, Exercise, SpecExercise};
use crate::memory::{
    spec_fail, spec_init, spec_success, Proficiency, MAX_DATE_MS,
    MAX_STRENGTH_MS, MAX_TIME_MS,
};
use crate::text::str_eq;

verus! {

/// First value of `key` in an association list, if any.
pub open spec fn assoc_lookup<K, V>(s: Seq<(K, V)>, key: K) -> Option<V>
    decreases s.len(),
{
    if s.len() == 0 {
        None
    } else if s[0].0 == key {
        Some(s[0].1)
    } else {
        assoc_lookup(s.skip(1), key)
    }
}

/// `assoc_lookup` finds the first entry with the key, or reports that no
/// entry has it.
pub proof fn lemma_assoc_lookup<K, V>(s: Seq<(K, V)>, key: K)
    ensures
        match assoc_lookup(s, key) {
            Some(v) => exists|i: int|
                0 <= i < s.len() && (#[trigger] s[i]).0 == key && s[i].1 == v && forall|j: int|
                    0 <= j < i ==> (#[trigger] s[j]).0 != key,
            None => forall|i: int| 0 <= i < s.len() ==> (#[trigger] s[i]).0 != key,
        },
    decreases s.len(),
{
    if s.len() == 0 {
    } else if s[0].0 == key {
        assert(forall|j: int| 0 <= j < 0 ==> (#[trigger] s[j]).0 != key);
    } else {
        lemma_assoc_lookup(s.skip(1), key);
        let t = s.skip(1);
        assert(forall|j: int| 1 <= j < s.len() ==> s[j] == t[j - 1]);
        match assoc_lookup(s, key) {
            Some(v) => {
                let i = choose|i: int|
                    0 <= i < t.len() && (#[trigger] t[i]).0 == key && t[i].1 == v && forall|
                        j: int,
                    | 0 <= j < i ==> (#[trigger] t[j]).0 != key;
                assert(s[i + 1].0 == key && s[i + 1].1 == v);
                assert(forall|j: int| 0 <= j < i + 1 ==> (#[trigger] s[j]).0 != key);
            },
            None => {},
        }
    }
}

/// Appending a fresh entry leaves every present key's value alone and gives
/// the fresh key its value.
pub proof fn lemma_assoc_push<K, V>(s: Seq<(K, V)>, key: K, v: V, probe: K)
    ensures
        assoc_lookup(s.push((key, v)), probe) == (match assoc_lookup(s, probe) {
            Some(w) => Some(w),
            None => if probe == key {
                Some(v)
            } else {
                None
            },
        }),
    decreases s.len(),
{
    if s.len() == 0 {
        assert(s.push((key, v))[0] == (key, v));
        assert(s.push((key, v)).skip(1) =~= Seq::<(K, V)>::empty());
        assert(assoc_lookup(Seq::<(K, V)>::empty(), probe) is None);
    } else {
        lemma_assoc_push(s.skip(1), key, v, probe);
        assert(s.push((key, v))[0] == s[0]);
        assert(s.push((key, v)).skip(1) =~= s.skip(1).push((key, v)));
    }
}

/// Overwriting the first entry that holds a key changes that key's value
/// and no other's.
pub proof fn lemma_assoc_update<K, V>(s: Seq<(K, V)>, i: int, v: V, probe: K)
    requires
        0 <= i < s.len(),
        forall|j: int| 0 <= j < i ==> (#[trigger] s[j]).0 != s[i].0,
    ensures
        assoc_lookup(s.update(i, (s[i].0, v)), probe) == (if probe == s[i].0 {
            Some(v)
        } else {
            assoc_lookup(s, probe)
        }),
    decreases s.len(),
{
    let s1 = s.update(i, (s[i].0, v));
    if i == 0 {
        assert(s1[0] == (s[i].0, v));
        assert(s1.skip(1) =~= s.skip(1));
    } else {
        assert(s1[0] == s[0]);
        assert(s1.skip(1) =~= s.skip(1).update(i - 1, (s[i].0, v)));
        assert(s.skip(1)[i - 1] == s[i]);
        assert(forall|j: int| 0 <= j < i - 1 ==> (#[trigger] s.skip(1)[j]).0 != s[i].0);
        lemma_assoc_update(s.skip(1), i - 1, v, probe);
    }
}

/// The learner's state: one memory record per seen word, and the time each
/// drill record was last presented.
pub struct UserModel {
    seen_words: Vec<(String, Proficiency)>,
    seen_exercises: Vec<(Exercise, i64)>,
}

impl UserModel {
    /// The word-memory mapping as an association sequence of word values
    /// and records, in insertion order.
    pub closed spec fn words_view(self) -> Seq<(Seq<char>, Proficiency)> {
        self.seen_words@.map_values(|p: (String, Proficiency)| (p.0@, p.1))
    }

    /// The review history as an association sequence of record values and
    /// the time each was last presented.
    pub closed spec fn exercises_view(self) -> Seq<(SpecExercise, i64)> {
        self.seen_exercises@.map_values(|p: (Exercise, i64)| (p.0@, p.1))
    }

    /// The memory record of a word, if the word has been seen.
    pub open spec fn proficiency_of(self, w: Seq<char>) -> Option<Proficiency> {
        assoc_lookup(self.words_view(), w)
    }

    /// When a drill record was last presented, if it ever was.
    pub open spec fn last_seen_of(self, ex: SpecExercise) -> Option<i64> {
        assoc_lookup(self.exercises_view(), ex)
    }

    /// Well-formedness: each word and each record appears at most once, and
    /// every stored due date and strength is within the model's bounds.
    pub closed spec fn wf(self) -> bool {
        &&& forall|i: int, j: int|
            0 <= i < j < self.words_view().len() ==> (#[trigger] self.words_view()[i]).0 != (
            #[trigger] self.words_view()[j]).0
        &&& forall|i: int|
            0 <= i < self.words_view().len() ==> -MAX_DATE_MS <= (
            #[trigger] self.words_view()[i]).1.target_date <= MAX_DATE_MS && 0
                <= self.words_view()[i].1.memory_strength
        &&& forall|i: int, j: int|
            0 <= i < j < self.exercises_view().len() ==> (#[trigger] self.exercises_view()[i]).0
                != (#[trigger] self.exercises_view()[j]).0
    }

    /// A fresh learner state: no word and no record has been seen.
    pub fn new() -> (r: UserModel)
        ensures
            r.wf(),
            forall|w: Seq<char>| r.proficiency_of(w) is None,
            forall|ex: SpecExercise| r.last_seen_of(ex) is None,
    {
        let r = UserModel { seen_words: Vec::new(), seen_exercises: Vec::new() };
        proof {
            assert(r.words_view() =~= Seq::<(Seq<char>, Proficiency)>::empty());
            assert(r.exercises_view() =~= Seq::<(SpecExercise, i64)>::empty());
        }
        r
    }

    /// Whether the word has a memory record.
    pub fn seen(&self, word: &str) -> (r: bool)
        ensures
            r == (self.proficiency_of(word@) is Some),
    {
        proof {
            lemma_assoc_lookup(self.words_view(), word@);
        }
        let n: usize = self.seen_words.len();
        let mut i: usize = 0;
        while i < n
            invariant
                n == self.seen_words@.len(),
                i <= n,
                forall|j: int| 0 <= j < i ==> (#[trigger] self.words_view()[j]).0 != word@,
            decreases n - i,
        {
            proof {
                assert(self.words_view()[i as int].0 == self.seen_words@[i as int].0@);
            }
            if str_eq(self.seen_words[i].0.as_str(), word) {
                proof {
                    lemma_assoc_lookup(self.words_view(), word@);
                }
                return true;
            }
            i = i + 1;
        }
        proof {
            lemma_assoc_lookup(self.words_view(), word@);
        }
        false
    }

    /// Position of the word's record, mirroring `proficiency_of`: the first
    /// entry with the word, if any.
    fn find_word(&self, word: &str) -> (r: Option<usize>)
        ensures
            match r {
                Some(i) => i < self.words_view().len() && self.words_view()[i as int].0 == word@
                    && (forall|j: int|
                    0 <= j < i ==> (#[trigger] self.words_view()[j]).0 != word@)
                    && self.proficiency_of(word@) == Some(self.words_view()[i as int].1),
                None => self.proficiency_of(word@) is None && forall|j: int|
                    0 <= j < self.words_view().len() ==> (#[trigger] self.words_view()[j]).0
                        != word@,
            },
{
        let n: usize = self.seen_words.len();
        let mut i: usize = 0;
        while i < n
            invariant
                n == self.seen_words@.len(),
                i <= n,
                forall|j: int| 0 <= j < i ==> (#[trigger] self.words_view()[j]).0 != word@,
            decreases n - i,
        {
            proof {
                assert(self.words_view()[i as int].0 == self.seen_words@[i as int].0@);
            }
            if str_eq(self.seen_words[i].0.as_str(), word) {
                proof {
                    lemma_assoc_lookup(self.words_view(), word@);
                    match self.proficiency_of(word@) {
                        Some(v) => {
                            let k = choose|k: int|
                                0 <= k < self.words_view().len() && (
                                #[trigger] self.words_view()[k]).0 == word@
                                    && self.words_view()[k].1 == v && forall|j: int|
                                    0 <= j < k ==> (#[trigger] self.words_view()[j]).0 != word@;
                            assert(!(k < i) && !(i < k));
                        },
                        None => {},
                    }
                }
                return Some(i);
            }
            i = i + 1;
        }
        proof {
            lemma_assoc_lookup(self.words_view(), word@);
        }
        None
    }

    /// Every word's memory record, in insertion order, for hand-off to a
    /// store.
    pub fn word_records(&self) -> (r: Vec<(String, Proficiency)>)
        ensures
            r@.map_values(|p: (String, Proficiency)| (p.0@, p.1)) == self.words_view(),
    {
        let n: usize = self.seen_words.len();
        let mut out: Vec<(String, Proficiency)> = Vec::new();
        let mut i: usize = 0;
        while i < n
            invariant
                n == self.seen_words@.len(),
                i <= n,
                out@.len() == i,
                forall|j: int|
                    0 <= j < i ==> (#[trigger] out@[j]).0@ == self.words_view()[j].0 && out@[j].1
                        == self.words_view()[j].1,
            decreases n - i,
        {
            proof {
                assert(self.words_view()[i as int].0 == self.seen_words@[i as int].0@);
                assert(self.words_view()[i as int].1 == self.seen_words@[i as int].1);
            }
            out.push((self.seen_words[i].0.clone(), self.seen_words[i].1));
            i = i + 1;
        }
        proof {
            assert(out@.map_values(|p: (String, Proficiency)| (p.0@, p.1))
                =~= self.words_view());
        }
        out
    }

    /// Every presented record with its presentation time, in insertion
    /// order, for hand-off to a store.
    pub fn exercise_records(&self) -> (r: Vec<(Exercise, i64)>)
        ensures
            r@.map_values(|p: (Exercise, i64)| (p.0@, p.1)) == self.exercises_view(),
    {
        let n: usize = self.seen_exercises.len();
        let mut out: Vec<(Exercise, i64)> = Vec::new();
        let mut i: usize = 0;
        while i < n
            invariant
                n == self.seen_exercises@.len(),
                i <= n,
                out@.len() == i,
                forall|j: int|
                    0 <= j < i ==> (#[trigger] out@[j]).0@ == self.exercises_view()[j].0
                        && out@[j].1 == self.exercises_view()[j].1,
            decreases n - i,
        {
            proof {
                assert(self.exercises_view()[i as int].0 == self.seen_exercises@[i as int].0@);
                assert(self.exercises_view()[i as int].1 == self.seen_exercises@[i as int].1);
            }
            out.push((self.seen_exercises[i].0.clone(), self.seen_exercises[i].1));
            i = i + 1;
        }
        proof {
            assert(out@.map_values(|p: (Exercise, i64)| (p.0@, p.1)) =~= self.exercises_view());
        }
        out
    }

    /// Restore a word's record from storage, overwriting any present one.
    pub fn restore_word(&mut self, word: &str, p: Proficiency)
        requires
            old(self).wf(),
            -MAX_DATE_MS <= p.target_date <= MAX_DATE_MS,
            0 <= p.memory_strength,
        ensures
            final(self).wf(),
            forall|w: Seq<char>|
                #[trigger] final(self).proficiency_of(w) == (if w == word@ {
                    Some(p)
                } else {
                    old(self).proficiency_of(w)
                }),
            final(self).exercises_view() == old(self).exercises_view(),
    {
        self.put_word(word, p);
    }

    /// The word's memory record, if the word has been seen.
    pub fn proficiency(&self, word: &str) -> (r: Option<Proficiency>)
        ensures
            r == self.proficiency_of(word@),
    {
        match self.find_word(word) {
            Some(i) => {
                proof {
                    assert(self.words_view()[i as int].1 == self.seen_words@[i as int].1);
                }
                Some(self.seen_words[i].1)
            },
            None => None,
        }
    }

    /// Ensure the word has a memory record: a word seen before keeps its
    /// record; a fresh word gets the initial record, due at `now`.
    pub fn with_proficiency(&mut self, word: &str, now: i64)
        requires
            old(self).wf(),
            -MAX_TIME_MS <= now <= MAX_TIME_MS,
        ensures
            final(self).wf(),
            forall|w: Seq<char>|
                #[trigger] final(self).proficiency_of(w) == (if w == word@ && old(
                    self,
                ).proficiency_of(w) is None {
                    Some(spec_init(now))
                } else {
                    old(self).proficiency_of(w)
                }),
            final(self).exercises_view() == old(self).exercises_view(),
    {
        let found = self.find_word(word);
        match found {
            Some(_) => {
                proof {
                    assert forall|w: Seq<char>|
                        #[trigger] self.proficiency_of(w) == (if w == word@ && self.proficiency_of(
                            w,
                        ) is None {
                            Some(spec_init(now))
                        } else {
                            self.proficiency_of(w)
                        }) by {}
                }
            },
            None => {
                let ghost old_view = self.words_view();
                self.seen_words.push((word.to_owned(), Proficiency::init(now)));
                proof {
                    assert(self.words_view() =~= old_view.push((word@, spec_init(now))));
                    assert forall|w: Seq<char>|
                        #[trigger] self.proficiency_of(w) == (if w == word@ && assoc_lookup(
                            old_view,
                            w,
                        ) is None {
                            Some(spec_init(now))
                        } else {
                            assoc_lookup(old_view, w)
                        }) by {
                        lemma_assoc_push(old_view, word@, spec_init(now), w);
                    }
                    assert forall|i: int, j: int|
                        0 <= i < j < self.words_view().len() implies (
                    #[trigger] self.words_view()[i]).0 != (#[trigger] self.words_view()[j]).0 by {
                        if j == self.words_view().len() - 1 {
                            assert(self.words_view()[i] == old_view[i]);
                        }
                    }
                    assert forall|i: int|
                        0 <= i < self.words_view().len() implies -MAX_DATE_MS <= (
                    #[trigger] self.words_view()[i]).1.target_date <= MAX_DATE_MS && 0
                        <= self.words_view()[i].1.memory_strength by {
                        if i < self.words_view().len() - 1 {
                            assert(self.words_view()[i] == old_view[i]);
                        }
                    }
                }
            },
        }
        proof {
            assert(self.exercises_view() =~= old(self).exercises_view());
            assert forall|i: int, j: int|
                0 <= i < j < self.exercises_view().len() implies (
            #[trigger] self.exercises_view()[i]).0 != (#[trigger] self.exercises_view()[j]).0 by {
                assert(self.exercises_view()[i] == old(self).exercises_view()[i]);
                assert(self.exercises_view()[j] == old(self).exercises_view()[j]);
            }
        }
    }

    /// Record a successful review of the word at time `now`: a fresh word
    /// gets the initial record first, and the record then takes the success
    /// transition.
    pub fn record_success(&mut self, word: &str, now: i64)
        requires
            old(self).wf(),
            -MAX_TIME_MS <= now <= MAX_TIME_MS,
            (old(self).proficiency_of(word@) matches Some(p) ==> p.memory_strength
                <= MAX_STRENGTH_MS),
        ensures
            final(self).wf(),
            forall|w: Seq<char>|
                #[trigger] final(self).proficiency_of(w) == (if w == word@ {
                    Some(
                        spec_success(
                            match old(self).proficiency_of(w) {
                                Some(p) => p,
                                None => spec_init(now),
                            },
                            now,
                        ),
                    )
                } else {
                    old(self).proficiency_of(w)
                }),
            final(self).exercises_view() == old(self).exercises_view(),
    {
        proof {
            lemma_assoc_lookup(self.words_view(), word@);
        }
        self.with_proficiency(word, now);
        self.apply_at_word(word, now, true);
    }

    /// Record a failed review of the word at time `now`: a fresh word gets
    /// the initial record first, and the record then takes the fail
    /// transition.
    pub fn record_fail(&mut self, word: &str, now: i64)
        requires
            old(self).wf(),
            -MAX_TIME_MS <= now <= MAX_TIME_MS,
        ensures
            final(self).wf(),
            forall|w: Seq<char>|
                #[trigger] final(self).proficiency_of(w) == (if w == word@ {
                    Some(spec_fail(now))
                } else {
                    old(self).proficiency_of(w)
                }),
            final(self).exercises_view() == old(self).exercises_view(),
    {
        self.with_proficiency(word, now);
        self.apply_at_word(word, now, false);
    }

    /// Apply the success or fail transition to the word's existing record.
    fn apply_at_word(&mut self, word: &str, now: i64, success: bool)
        requires
            old(self).wf(),
            -MAX_TIME_MS <= now <= MAX_TIME_MS,
            old(self).proficiency_of(word@) is Some,
            success ==> (old(self).proficiency_of(word@) matches Some(p) ==> 0
                <= p.memory_strength <= MAX_STRENGTH_MS),
        ensures
            final(self).wf(),
            forall|w: Seq<char>|
                #[trigger] final(self).proficiency_of(w) == (if w == word@ {
                    Some(
                        if success {
                            spec_success(old(self).proficiency_of(w)->Some_0, now)
                        } else {
                            spec_fail(now)
                        },
                    )
                } else {
                    old(self).proficiency_of(w)
                }),
            final(self).exercises_view() == old(self).exercises_view(),
    {
        let found = self.find_word(word);
        match found {
            Some(i) => {
                let mut p = self.seen_words[i].1;
                proof {
                    assert(self.words_view()[i as int].1 == self.seen_words@[i as int].1);
                    lemma_assoc_lookup(self.words_view(), word@);
                }
                if success {
                    proof {
                        assert(p.memory_strength / 50 <= p.memory_strength) by (nonlinear_arith)
                            requires
                                p.memory_strength >= 0,
                        ;
                    }
                    p.success(now);
                } else {
                    p.fail(now);
                }
                self.put_word(word, p);
            },
            None => {
                proof {
                    assert(false);
                }
            },
        }
    }

    /// Store `p` as the word's record, overwriting an earlier one.
    fn put_word(&mut self, word: &str, p: Proficiency)
        requires
            old(self).wf(),
            -MAX_DATE_MS <= p.target_date <= MAX_DATE_MS,
            0 <= p.memory_strength,
        ensures
            final(self).wf(),
            forall|w: Seq<char>|
                #[trigger] final(self).proficiency_of(w) == (if w == word@ {
                    Some(p)
                } else {
                    old(self).proficiency_of(w)
                }),
            final(self).exercises_view() == old(self).exercises_view(),
    {
        let found = self.find_word(word);
        let ghost old_view = self.words_view();
        match found {
            Some(i) => {
                let key = self.seen_words[i].0.clone();
                self.seen_words.set(i, (key, p));
                proof {
                    assert(self.words_view() =~= old_view.update(i as int, (word@, p)));
                    assert(old_view[i as int].0 == word@);
                    assert forall|w: Seq<char>|
                        #[trigger] self.proficiency_of(w) == (if w == word@ {
                            Some(p)
                        } else {
                            assoc_lookup(old_view, w)
                        }) by {
                        lemma_assoc_update(old_view, i as int, p, w);
                    }
                    assert forall|a: int, b: int|
                        0 <= a < b < self.words_view().len() implies (
                    #[trigger] self.words_view()[a]).0 != (#[trigger] self.words_view()[b]).0 by {
                        assert(old_view[a].0 == self.words_view()[a].0);
                        assert(old_view[b].0 == self.words_view()[b].0);
                    }
                    assert forall|a: int|
                        0 <= a < self.words_view().len() implies -MAX_DATE_MS <= (
                    #[trigger] self.words_view()[a]).1.target_date <= MAX_DATE_MS && 0
                        <= self.words_view()[a].1.memory_strength by {
                        if a != i as int {
                            assert(self.words_view()[a] == old_view[a]);
                        }
                    }
                }
            },
            None => {
                self.seen_words.push((word.to_owned(), p));
                proof {
                    assert(self.words_view() =~= old_view.push((word@, p)));
                    assert forall|w: Seq<char>|
                        #[trigger] self.proficiency_of(w) == (if w == word@ {
                            Some(p)
                        } else {
                            assoc_lookup(old_view, w)
                        }) by {
                        lemma_assoc_push(old_view, word@, p, w);
                    }
                    assert forall|a: int, b: int|
                        0 <= a < b < self.words_view().len() implies (
                    #[trigger] self.words_view()[a]).0 != (#[trigger] self.words_view()[b]).0 by {
                        if b == self.words_view().len() - 1 {
                            assert(self.words_view()[a] == old_view[a]);
                        }
                    }
                    assert forall|a: int|
                        0 <= a < self.words_view().len() implies -MAX_DATE_MS <= (
                    #[trigger] self.words_view()[a]).1.target_date <= MAX_DATE_MS && 0
                        <= self.words_view()[a].1.memory_strength by {
                        if a < self.words_view().len() - 1 {
                            assert(self.words_view()[a] == old_view[a]);
                        }
                    }
                }
            },
        }
        proof {
            assert(self.exercises_view() =~= old(self).exercises_view());
            assert forall|a: int, b: int|
                0 <= a < b < self.exercises_view().len() implies (
            #[trigger] self.exercises_view()[a]).0 != (#[trigger] self.exercises_view()[b]).0 by {
                assert(self.exercises_view()[a] == old(self).exercises_view()[a]);
                assert(self.exercises_view()[b] == old(self).exercises_view()[b]);
            }
        }
    }

    /// Give a word a record with the given due date and zero strength, as a
    /// way to stage exact scheduling scenarios.
    pub fn set_target_date(&mut self, word: &str, target_date: i64)
        requires
            old(self).wf(),
            -MAX_TIME_MS <= target_date <= MAX_TIME_MS,
        ensures
            final(self).wf(),
            forall|w: Seq<char>|
                #[trigger] final(self).proficiency_of(w) == (if w == word@ {
                    Some(Proficiency { target_date, memory_strength: 0 })
                } else {
                    old(self).proficiency_of(w)
                }),
            final(self).exercises_view() == old(self).exercises_view(),
    {
        self.put_word(word, Proficiency { target_date, memory_strength: 0 });
    }
}

/// Strict lexicographic order on a ranking key.
pub open spec fn key_lt(a: (int, int), b: (int, int)) -> bool {
    a.0 < b.0 || (a.0 == b.0 && a.1 < b.1)
}

impl UserModel {
    /// Ranking of the list's word at position `i`, at time `now`; smaller is
    /// better. Tier first: due words beat unseen words beat future words.
    /// Within the tiers: the due word that became due most recently, the
    /// unseen word earliest in the list, the future word due soonest.
    pub open spec fn word_key(self, now: i64, words: Seq<Seq<char>>, i: int) -> (int, int) {
        match self.proficiency_of(words[i]) {
            Some(p) => if p.target_date <= now {
                (0, now - p.target_date)
            } else {
                (2, p.target_date - now)
            },
            None => (1, i),
        }
    }

    /// The position that wins the ranking, scanning from `i` with `best` the
    /// winner so far: a later word wins only by ranking strictly better.
    pub open spec fn next_word_index_from(
        self,
        now: i64,
        words: Seq<Seq<char>>,
        i: int,
        best: int,
    ) -> int
        decreases words.len() - i,
    {
        if i < 0 || i >= words.len() {
            best
        } else {
            self.next_word_index_from(
                now,
                words,
                i + 1,
                if key_lt(self.word_key(now, words, i), self.word_key(now, words, best)) {
                    i
                } else {
                    best
                },
            )
        }
    }

    /// The position of the word that `next_word` picks: the first position
    /// with the minimal ranking key.
    pub open spec fn next_word_index(self, now: i64, words: Seq<Seq<char>>) -> int {
        self.next_word_index_from(now, words, 1, 0)
    }

    /// The picked position ranks no worse than any position, and strictly
    /// better than every earlier one: ties go to the first.
    proof fn lemma_next_word_from(self, now: i64, words: Seq<Seq<char>>, i: int, best: int)
        requires
            1 <= i <= words.len(),
            0 <= best < i,
            forall|j: int| 0 <= j < i ==> !key_lt(
                #[trigger] self.word_key(now, words, j),
                self.word_key(now, words, best),
            ),
            forall|j: int| 0 <= j < best ==> key_lt(
                self.word_key(now, words, best),
                #[trigger] self.word_key(now, words, j),
            ),
        ensures
            ({
                let r = self.next_word_index_from(now, words, i, best);
                &&& 0 <= r < words.len()
                &&& forall|j: int| 0 <= j < words.len() ==> !key_lt(
                    #[trigger] self.word_key(now, words, j),
                    self.word_key(now, words, r),
                )
                &&& forall|j: int| 0 <= j < r ==> key_lt(
                    self.word_key(now, words, r),
                    #[trigger] self.word_key(now, words, j),
                )
            }),
        decreases words.len() - i,
    {
        if i >= words.len() {
        } else {
            let ki = self.word_key(now, words, i);
            let kb = self.word_key(now, words, best);
            if key_lt(ki, kb) {
                assert forall|j: int| 0 <= j < i + 1 implies !key_lt(
                    #[trigger] self.word_key(now, words, j),
                    ki,
                ) by {
                    if j < i {
                        assert(!key_lt(self.word_key(now, words, j), kb));
                    }
                }
                assert forall|j: int| 0 <= j < i implies key_lt(
                    ki,
                    #[trigger] self.word_key(now, words, j),
                ) by {
                    assert(!key_lt(self.word_key(now, words, j), kb));
                }
                self.lemma_next_word_from(now, words, i + 1, i);
            } else {
                self.lemma_next_word_from(now, words, i + 1, best);
            }
        }
    }

    /// The picked word is the list's best: no word ranks better, and every
    /// word before it ranks strictly worse.
    pub proof fn lemma_next_word_index(self, now: i64, words: Seq<Seq<char>>)
        requires
            words.len() > 0,
        ensures
            0 <= self.next_word_index(now, words) < words.len(),
            forall|j: int| 0 <= j < words.len() ==> !key_lt(
                #[trigger] self.word_key(now, words, j),
                self.word_key(now, words, self.next_word_index(now, words)),
            ),
            forall|j: int| 0 <= j < self.next_word_index(now, words) ==> key_lt(
                self.word_key(now, words, self.next_word_index(now, words)),
                #[trigger] self.word_key(now, words, j),
            ),
    {
        self.lemma_next_word_from(now, words, 1, 0);
    }

    /// On an empty model every word is unseen, so the first word of the list
    /// wins.
    pub proof fn lemma_next_word_empty_model(self, now: i64, words: Seq<Seq<char>>)
        requires
            words.len() > 0,
            forall|w: Seq<char>| self.proficiency_of(w) is None,
        ensures
            self.next_word_index(now, words) == 0,
    {
        self.lemma_next_word_empty_from(now, words, 1);
    }

    /// Helper induction: with every word unseen, the scan never replaces the
    /// first position.
    proof fn lemma_next_word_empty_from(self, now: i64, words: Seq<Seq<char>>, i: int)
        requires
            1 <= i,
            forall|w: Seq<char>| self.proficiency_of(w) is None,
        ensures
            self.next_word_index_from(now, words, i, 0) == 0,
        decreases words.len() - i,
    {
        if i >= words.len() {
        } else {
            assert(self.word_key(now, words, i) == (1int, i));
            assert(self.word_key(now, words, 0) == (1int, 0int));
            self.lemma_next_word_empty_from(now, words, i + 1);
        }
    }

    /// The ranking key of the word `w` sitting at position `idx`, as a pair
    /// of machine integers.
    fn key_of(&self, now: i64, w: &str, idx: usize) -> (r: (i64, i64))
        requires
            self.wf(),
            -MAX_TIME_MS <= now <= MAX_TIME_MS,
            idx <= 0x7fff_ffff_ffff_ffff,
        ensures
            ({
                let k = match self.proficiency_of(w@) {
                    Some(p) => if p.target_date <= now {
                        (0int, now - p.target_date)
                    } else {
                        (2int, p.target_date - now)
                    },
                    None => (1int, idx as int),
                };
                r.0 == k.0 && r.1 == k.1
            }),
    {
        match self.find_word(w) {
            Some(i) => {
                let p = self.seen_words[i].1;
                proof {
                    assert(self.words_view()[i as int].1 == self.seen_words@[i as int].1);
                    assert(-MAX_DATE_MS <= self.words_view()[i as int].1.target_date
                        <= MAX_DATE_MS);
                }
                if p.target_date <= now {
                    (0, now - p.target_date)
                } else {
                    (2, p.target_date - now)
                }
            },
            None => (1, idx as i64),
        }
    }

    /// The next word to drill: the first word of the list with the minimal
    /// ranking key — due words first (most recently due wins), then unseen
    /// words (earliest in the list wins), then future words (due soonest
    /// wins).
    pub fn next_word(&self, now: i64, word_list: &Vec<String>) -> (r: String)
        requires
            self.wf(),
            -MAX_TIME_MS <= now <= MAX_TIME_MS,
            word_list@.len() > 0,
            word_list@.len() <= 0x7fff_ffff_ffff_ffff,
        ensures
            0 <= self.next_word_index(now, word_list.deep_view()) < word_list@.len(),
            r@ == word_list.deep_view()[self.next_word_index(now, word_list.deep_view())],
            forall|j: int|
                0 <= j < word_list@.len() ==> !key_lt(
                    #[trigger] self.word_key(now, word_list.deep_view(), j),
                    self.word_key(
                        now,
                        word_list.deep_view(),
                        self.next_word_index(now, word_list.deep_view()),
                    ),
                ),
            forall|j: int|
                0 <= j < self.next_word_index(now, word_list.deep_view()) ==> key_lt(
                    self.word_key(
                        now,
                        word_list.deep_view(),
                        self.next_word_index(now, word_list.deep_view()),
                    ),
                    #[trigger] self.word_key(now, word_list.deep_view(), j),
                ),
    {
        proof {
            self.lemma_next_word_index(now, word_list.deep_view());
        }
        let ghost words = word_list.deep_view();
        let n: usize = word_list.len();
        let mut best: usize = 0;
        let mut best_key: (i64, i64) = self.key_of(now, word_list[0].as_str(), 0);
        proof {
            assert(words[0] == word_list@[0]@);
        }
        let mut i: usize = 1;
        while i < n
            invariant
                self.wf(),
                -MAX_TIME_MS <= now <= MAX_TIME_MS,
                n == word_list@.len(),
                n <= 0x7fff_ffff_ffff_ffff,
                words == word_list.deep_view(),
                1 <= i <= n,
                best < i,
                (best_key.0 as int, best_key.1 as int) == self.word_key(now, words, best as int),
                self.next_word_index(now, words) == self.next_word_index_from(
                    now,
                    words,
                    i as int,
                    best as int,
                ),
            decreases n - i,
        {
            let k = self.key_of(now, word_list[i].as_str(), i);
            proof {
                assert(words[i as int] == word_list@[i as int]@);
                assert((k.0 as int, k.1 as int) == self.word_key(now, words, i as int));
            }
            if k.0 < best_key.0 || (k.0 == best_key.0 && k.1 < best_key.1) {
                best = i;
                best_key = k;
            }
            i = i + 1;
        }
        proof {
            assert(self.next_word_index_from(now, words, n as int, best as int) == best as int);
            assert(words[best as int] == word_list@[best as int]@);
        }
        word_list[best].clone()
    }
}

/// How well a drill record fits the learner right now; smaller is better,
/// compared field by field in this order.
#[derive(Debug, Clone, Copy, PartialEq, Eq)]
pub struct ExerciseScore {
    /// Words not due in the future and outside the target list.
    pub words_not_in_list: usize,
    /// Words not due in the future and inside the target list.
    pub words_in_list: usize,
    /// Words with no memory record at all.
    pub words_not_seen: usize,
    /// When the record was last presented; never beats any time.
    pub last_seen_date: Option<i64>,
    /// Words whose record is due in the future.
    pub future_words_count: usize,
}

/// Order on optional presentation times: absent comes first, then earlier.
pub open spec fn opt_date_lt(a: Option<i64>, b: Option<i64>) -> bool {
    match (a, b) {
        (Option::None, Option::Some(_)) => true,
        (Option::Some(x), Option::Some(y)) => x < y,
        _ => false,
    }
}

/// Strict lexicographic order on scores: the first differing field decides.
pub open spec fn score_lt(a: ExerciseScore, b: ExerciseScore) -> bool {
    if a.words_not_in_list != b.words_not_in_list {
        a.words_not_in_list < b.words_not_in_list
    } else if a.words_in_list != b.words_in_list {
        a.words_in_list < b.words_in_list
    } else if a.words_not_seen != b.words_not_seen {
        a.words_not_seen < b.words_not_seen
    } else if a.last_seen_date != b.last_seen_date {
        opt_date_lt(a.last_seen_date, b.last_seen_date)
    } else {
        a.future_words_count < b.future_words_count
    }
}

/// Strict lexicographic order on scores; see `score_lt`.
pub fn score_lt_exec(a: &ExerciseScore, b: &ExerciseScore) -> (r: bool)
    ensures
        r == score_lt(*a, *b),
{
    if a.words_not_in_list != b.words_not_in_list {
        a.words_not_in_list < b.words_not_in_list
    } else if a.words_in_list != b.words_in_list {
        a.words_in_list < b.words_in_list
    } else if a.words_not_seen != b.words_not_seen {
        a.words_not_seen < b.words_not_seen
    } else {
        match (&a.last_seen_date, &b.last_seen_date) {
            (Option::None, Option::Some(_)) => true,
            (Option::Some(_), Option::None) => false,
            (Option::Some(x), Option::Some(y)) => {
                if *x != *y {
                    *x < *y
                } else {
                    a.future_words_count < b.future_words_count
                }
            },
            (Option::None, Option::None) => a.future_words_count < b.future_words_count,
        }
    }
}

/// Whether the word is among the record's distinct words.
pub open spec fn contains_word(ex: SpecExercise, w: Seq<char>) -> bool {
    distinct_words_of(ex.segments).contains(w)
}

impl UserModel {
    /// Whether the word's record puts its next review after `now`.
    pub open spec fn is_future_word(self, now: i64, w: Seq<char>) -> bool {
        match self.proficiency_of(w) {
            Some(p) => p.target_date > now,
            None => false,
        }
    }

    /// How many of the words are due in the future.
    pub open spec fn count_future(self, now: i64, ws: Seq<Seq<char>>) -> int
        decreases ws.len(),
    {
        if ws.len() == 0 {
            0
        } else {
            self.count_future(now, ws.drop_last()) + if self.is_future_word(now, ws.last()) {
                1int
            } else {
                0int
            }
        }
    }

    /// How many of the words have no memory record.
    pub open spec fn count_not_seen(self, ws: Seq<Seq<char>>) -> int
        decreases ws.len(),
    {
        if ws.len() == 0 {
            0
        } else {
            self.count_not_seen(ws.drop_last()) + if self.proficiency_of(ws.last()) is None {
                1int
            } else {
                0int
            }
        }
    }

    /// How many of the words are not due in the future and stand in the list.
    pub open spec fn count_in_list(
        self,
        now: i64,
        ws: Seq<Seq<char>>,
        list: Seq<Seq<char>>,
    ) -> int
        decreases ws.len(),
    {
        if ws.len() == 0 {
            0
        } else {
            self.count_in_list(now, ws.drop_last(), list) + if !self.is_future_word(
                now,
                ws.last(),
            ) && list.contains(ws.last()) {
                1int
            } else {
                0int
            }
        }
    }

    /// How many of the words are not due in the future and absent from the
    /// list.
    pub open spec fn count_not_in_list(
        self,
        now: i64,
        ws: Seq<Seq<char>>,
        list: Seq<Seq<char>>,
    ) -> int
        decreases ws.len(),
    {
        if ws.len() == 0 {
            0
        } else {
            self.count_not_in_list(now, ws.drop_last(), list) + if !self.is_future_word(
                now,
                ws.last(),
            ) && !list.contains(ws.last()) {
                1int
            } else {
                0int
            }
        }
    }

    /// The score of a drill record at time `now` against a target list,
    /// counted over the record's distinct words.
    pub open spec fn spec_score(self, now: i64, ex: SpecExercise, list: Seq<Seq<char>>)
        -> ExerciseScore {
        let ws = distinct_words_of(ex.segments);
        ExerciseScore {
            words_not_in_list: self.count_not_in_list(now, ws, list) as usize,
            words_in_list: self.count_in_list(now, ws, list) as usize,
            words_not_seen: self.count_not_seen(ws) as usize,
            last_seen_date: self.last_seen_of(ex),
            future_words_count: self.count_future(now, ws) as usize,
        }
    }

    /// Position of the record's history entry, mirroring `last_seen_of`.
    fn find_exercise(&self, ex: &Exercise) -> (r: Option<usize>)
        ensures
            match r {
                Some(i) => i < self.exercises_view().len() && self.exercises_view()[i as int].0
                    == ex@ && (forall|j: int|
                    0 <= j < i ==> (#[trigger] self.exercises_view()[j]).0 != ex@)
                    && self.last_seen_of(ex@) == Some(self.exercises_view()[i as int].1),
                None => self.last_seen_of(ex@) is None && forall|j: int|
                    0 <= j < self.exercises_view().len() ==> (
                    #[trigger] self.exercises_view()[j]).0 != ex@,
            },
    {
        let n: usize = self.seen_exercises.len();
        let mut i: usize = 0;
        while i < n
            invariant
                n == self.seen_exercises@.len(),
                i <= n,
                forall|j: int| 0 <= j < i ==> (#[trigger] self.exercises_view()[j]).0 != ex@,
            decreases n - i,
        {
            proof {
                assert(self.exercises_view()[i as int].0 == self.seen_exercises@[i as int].0@);
            }
            if exercise_eq(&self.seen_exercises[i].0, ex) {
                proof {
                    lemma_assoc_lookup(self.exercises_view(), ex@);
                    match self.last_seen_of(ex@) {
                        Some(v) => {
                            let k = choose|k: int|
                                0 <= k < self.exercises_view().len() && (
                                #[trigger] self.exercises_view()[k]).0 == ex@
                                    && self.exercises_view()[k].1 == v && forall|j: int|
                                    0 <= j < k ==> (#[trigger] self.exercises_view()[j]).0 != ex@;
                            assert(!(k < i) && !(i < k));
                        },
                        None => {},
                    }
                }
                return Some(i);
            }
            i = i + 1;
        }
        proof {
            lemma_assoc_lookup(self.exercises_view(), ex@);
        }
        None
    }

    /// Record that the drill record was presented at time `at`, overwriting
    /// any earlier presentation time.
    pub fn mark_seen(&mut self, exercise: &Exercise, at: i64)
        requires
            old(self).wf(),
        ensures
            final(self).wf(),
            forall|e: SpecExercise|
                #[trigger] final(self).last_seen_of(e) == (if e == exercise@ {
                    Some(at)
                } else {
                    old(self).last_seen_of(e)
                }),
            final(self).words_view() == old(self).words_view(),
    {
        let found = self.find_exercise(exercise);
        let ghost old_view = self.exercises_view();
        match found {
            Some(i) => {
                let key = self.seen_exercises[i].0.clone();
                self.seen_exercises.set(i, (key, at));
                proof {
                    assert(self.exercises_view() =~= old_view.update(i as int, (exercise@, at)));
                    assert(old_view[i as int].0 == exercise@);
                    assert forall|e: SpecExercise|
                        #[trigger] self.last_seen_of(e) == (if e == exercise@ {
                            Some(at)
                        } else {
                            assoc_lookup(old_view, e)
                        }) by {
                        lemma_assoc_update(old_view, i as int, at, e);
                    }
                    assert forall|a: int, b: int|
                        0 <= a < b < self.exercises_view().len() implies (
                    #[trigger] self.exercises_view()[a]).0 != (
                    #[trigger] self.exercises_view()[b]).0 by {
                        assert(old_view[a].0 == self.exercises_view()[a].0);
                        assert(old_view[b].0 == self.exercises_view()[b].0);
                    }
                }
            },
            None => {
                self.seen_exercises.push((exercise.clone(), at));
                proof {
                    assert(self.exercises_view() =~= old_view.push((exercise@, at)));
                    assert forall|e: SpecExercise|
                        #[trigger] self.last_seen_of(e) == (if e == exercise@ {
                            Some(at)
                        } else {
                            assoc_lookup(old_view, e)
                        }) by {
                        lemma_assoc_push(old_view, exercise@, at, e);
                    }
                    assert forall|a: int, b: int|
                        0 <= a < b < self.exercises_view().len() implies (
                    #[trigger] self.exercises_view()[a]).0 != (
                    #[trigger] self.exercises_view()[b]).0 by {
                        if b == self.exercises_view().len() - 1 {
                            assert(self.exercises_view()[a] == old_view[a]);
                        }
                    }
                }
            },
        }
        proof {
            assert(self.words_view() =~= old(self).words_view());
            assert forall|a: int, b: int|
                0 <= a < b < self.words_view().len() implies (#[trigger] self.words_view()[a]).0
                != (#[trigger] self.words_view()[b]).0 by {
                assert(self.words_view()[a] == old(self).words_view()[a]);
                assert(self.words_view()[b] == old(self).words_view()[b]);
            }
            assert forall|a: int|
                0 <= a < self.words_view().len() implies -MAX_DATE_MS <= (
            #[trigger] self.words_view()[a]).1.target_date <= MAX_DATE_MS && 0
                <= self.words_view()[a].1.memory_strength by {
                assert(self.words_view()[a] == old(self).words_view()[a]);
            }
        }
    }

    /// Score a drill record at time `now` against the target list; see
    /// `spec_score`.
    pub fn score_exercise(
        &self,
        now: i64,
        exercise: &Exercise,
        word_list: &Vec<String>,
    ) -> (r: ExerciseScore)
        ensures
            r == self.spec_score(now, exercise@, word_list.deep_view()),
    {
        let ghost list = word_list.deep_view();
        let words = exercise.words();
        let ghost ws = distinct_words_of(exercise@.segments);
        let n: usize = words.len();
        let mut not_in_list: usize = 0;
        let mut in_list: usize = 0;
        let mut not_seen: usize = 0;
        let mut future: usize = 0;
        let mut i: usize = 0;
        proof {
            assert(ws.take(0) =~= Seq::<Seq<char>>::empty());
        }
        while i < n
            invariant
                n == words@.len(),
                words.deep_view() == ws,
                i <= n,
                not_in_list as int == self.count_not_in_list(now, ws.take(i as int), list),
                in_list as int == self.count_in_list(now, ws.take(i as int), list),
                not_seen as int == self.count_not_seen(ws.take(i as int)),
                future as int == self.count_future(now, ws.take(i as int)),
                not_in_list <= i && in_list <= i && not_seen <= i && future <= i,
                list == word_list.deep_view(),
            decreases n - i,
        {
            proof {
                assert(ws.take(i + 1).drop_last() =~= ws.take(i as int));
                assert(ws.take(i + 1).last() == ws[i as int]);
                assert(ws[i as int] == words@[i as int]@);
            }
            let w = words[i].as_str();
            let fut = match self.find_word(w) {
                Some(k) => {
                    proof {
                        assert(self.words_view()[k as int].1 == self.seen_words@[k as int].1);
                    }
                    self.seen_words[k].1.target_date > now
                },
                None => {
                    not_seen = not_seen + 1;
                    false
                },
            };
            if fut {
                future = future + 1;
            } else {
                if vec_contains_str(word_list, w) {
                    in_list = in_list + 1;
                } else {
                    not_in_list = not_in_list + 1;
                }
            }
            i = i + 1;
        }
        proof {
            assert(ws.take(n as int) =~= ws);
        }
        let last_seen_date = match self.find_exercise(exercise) {
            Some(k) => {
                proof {
                    assert(self.exercises_view()[k as int].1 == self.seen_exercises@[k as int].1);
                }
                Some(self.seen_exercises[k].1)
            },
            None => None,
        };
        ExerciseScore {
            words_not_in_list: not_in_list,
            words_in_list: in_list,
            words_not_seen: not_seen,
            last_seen_date,
            future_words_count: future,
        }
    }

    /// The position of the record that `next_exercise` picks, scanning from
    /// `i` with `best` the winner so far: only records holding the target
    /// word compete, and a later record wins only by scoring strictly
    /// better.
    pub open spec fn next_exercise_index_from(
        self,
        now: i64,
        exs: Seq<SpecExercise>,
        list: Seq<Seq<char>>,
        w: Seq<char>,
        i: int,
        best: Option<int>,
    ) -> Option<int>
        decreases exs.len() - i,
    {
        if i < 0 || i >= exs.len() {
            best
        } else {
            let nb = if contains_word(exs[i], w) {
                match best {
                    None => Some(i),
                    Some(b) => if score_lt(
                        self.spec_score(now, exs[i], list),
                        self.spec_score(now, exs[b], list),
                    ) {
                        Some(i)
                    } else {
                        best
                    },
                }
            } else {
                best
            };
            self.next_exercise_index_from(now, exs, list, w, i + 1, nb)
        }
    }

    /// The position of the record that `next_exercise` picks: the first
    /// record holding the target word with the minimal score, or nothing
    /// when no record holds it.
    pub open spec fn next_exercise_index(
        self,
        now: i64,
        exs: Seq<SpecExercise>,
        list: Seq<Seq<char>>,
        w: Seq<char>,
    ) -> Option<int> {
        self.next_exercise_index_from(now, exs, list, w, 0, None)
    }

    /// The score order is strict and total: of two scores, exactly one is
    /// smaller, or they are equal.
    pub proof fn lemma_score_lt_trichotomy(a: ExerciseScore, b: ExerciseScore)
        ensures
            score_lt(a, b) || score_lt(b, a) || a == b,
            !(score_lt(a, b) && score_lt(b, a)),
            score_lt(a, b) ==> a != b,
    {
    }

    /// The score order is transitive.
    pub proof fn lemma_score_lt_trans(a: ExerciseScore, b: ExerciseScore, c: ExerciseScore)
        requires
            score_lt(a, b),
            score_lt(b, c),
        ensures
            score_lt(a, c),
    {
    }

    /// What the record scan guarantees from any sound intermediate state:
    /// the picked record holds the target word and scores no worse than any
    /// record holding it, earlier such records scoring strictly worse; no
    /// pick means no record holds the word.
    proof fn lemma_next_ex_from(
        self,
        now: i64,
        exs: Seq<SpecExercise>,
        list: Seq<Seq<char>>,
        w: Seq<char>,
        i: int,
        best: Option<int>,
    )
        requires
            0 <= i <= exs.len(),
            match best {
                Some(b) => 0 <= b < i && contains_word(exs[b], w) && (forall|j: int|
                    0 <= j < i && contains_word(#[trigger] exs[j], w) ==> !score_lt(
                        self.spec_score(now, exs[j], list),
                        self.spec_score(now, exs[b], list),
                    )) && (forall|j: int|
                    0 <= j < b && contains_word(#[trigger] exs[j], w) ==> score_lt(
                        self.spec_score(now, exs[b], list),
                        self.spec_score(now, exs[j], list),
                    )),
                None => forall|j: int| 0 <= j < i ==> !contains_word(#[trigger] exs[j], w),
            },
        ensures
            match self.next_exercise_index_from(now, exs, list, w, i, best) {
                Some(b) => 0 <= b < exs.len() && contains_word(exs[b], w) && (forall|j: int|
                    0 <= j < exs.len() && contains_word(#[trigger] exs[j], w) ==> !score_lt(
                        self.spec_score(now, exs[j], list),
                        self.spec_score(now, exs[b], list),
                    )) && (forall|j: int|
                    0 <= j < b && contains_word(#[trigger] exs[j], w) ==> score_lt(
                        self.spec_score(now, exs[b], list),
                        self.spec_score(now, exs[j], list),
                    )),
                None => forall|j: int| 0 <= j < exs.len() ==> !contains_word(#[trigger] exs[j], w),
            },
        decreases exs.len() - i,
    {
        if i >= exs.len() {
        } else {
            let nb = if contains_word(exs[i], w) {
                match best {
                    None => Some(i),
                    Some(b) => if score_lt(
                        self.spec_score(now, exs[i], list),
                        self.spec_score(now, exs[b], list),
                    ) {
                        Some(i)
                    } else {
                        best
                    },
                }
            } else {
                best
            };
            if contains_word(exs[i], w) {
                let si = self.spec_score(now, exs[i], list);
                match best {
                    None => {
                        assert forall|j: int|
                            0 <= j < i + 1 && contains_word(#[trigger] exs[j], w) implies !score_lt(
                            self.spec_score(now, exs[j], list),
                            si,
                        ) by {
                            if j == i {
                                Self::lemma_score_lt_trichotomy(si, si);
                            }
                        }
                    },
                    Some(b) => {
                        let sb = self.spec_score(now, exs[b], list);
                        if score_lt(si, sb) {
                            assert forall|j: int|
                                0 <= j < i + 1 && contains_word(
                                    #[trigger] exs[j],
                                    w,
                                ) implies !score_lt(self.spec_score(now, exs[j], list), si) by {
                                if j == i {
                                    Self::lemma_score_lt_trichotomy(si, si);
                                } else {
                                    let sj = self.spec_score(now, exs[j], list);
                                    if score_lt(sj, si) {
                                        Self::lemma_score_lt_trans(sj, si, sb);
                                    }
                                }
                            }
                            assert forall|j: int|
                                0 <= j < i && contains_word(#[trigger] exs[j], w) implies score_lt(
                                si,
                                self.spec_score(now, exs[j], list),
                            ) by {
                                let sj = self.spec_score(now, exs[j], list);
                                Self::lemma_score_lt_trichotomy(sj, sb);
                                if score_lt(sb, sj) {
                                    Self::lemma_score_lt_trans(si, sb, sj);
                                }
                            }
                        }
                    },
                }
            }
            self.lemma_next_ex_from(now, exs, list, w, i + 1, nb);
        }
    }

    /// The record pick is sound and complete: a picked record holds the
    /// target word, no record holding it scores better, and every earlier
    /// record holding it scores strictly worse; no pick means no record of
    /// the pool holds the word at all.
    pub proof fn lemma_next_exercise_index(
        self,
        now: i64,
        exs: Seq<SpecExercise>,
        list: Seq<Seq<char>>,
        w: Seq<char>,
    )
        ensures
            match self.next_exercise_index(now, exs, list, w) {
                Some(b) => 0 <= b < exs.len() && contains_word(exs[b], w) && (forall|j: int|
                    0 <= j < exs.len() && contains_word(#[trigger] exs[j], w) ==> !score_lt(
                        self.spec_score(now, exs[j], list),
                        self.spec_score(now, exs[b], list),
                    )) && (forall|j: int|
                    0 <= j < b && contains_word(#[trigger] exs[j], w) ==> score_lt(
                        self.spec_score(now, exs[b], list),
                        self.spec_score(now, exs[j], list),
                    )),
                None => forall|j: int| 0 <= j < exs.len() ==> !contains_word(#[trigger] exs[j], w),
            },
    {
        self.lemma_next_ex_from(now, exs, list, w, 0, None);
    }

    /// The best-fitting drill record for the target word: among the records
    /// whose distinct words hold the word, the first with the minimal score;
    /// nothing when no record holds it.
    pub fn next_exercise(
        &self,
        now: i64,
        exercises: &Vec<Exercise>,
        word_list: &Vec<String>,
        target_word: &str,
    ) -> (r: Option<Exercise>)
        ensures
            ({
                let exs = exercises@.map_values(|e: Exercise| e@);
                let idx = self.next_exercise_index(
                    now,
                    exs,
                    word_list.deep_view(),
                    target_word@,
                );
                match r {
                    Some(ex) => idx matches Some(b) && 0 <= b < exs.len() && ex@ == exs[b]
                        && contains_word(ex@, target_word@),
                    None => idx is None && forall|j: int|
                        0 <= j < exs.len() ==> !contains_word(#[trigger] exs[j], target_word@),
                }
            }),
    {
        proof {
            self.lemma_next_exercise_index(
                now,
                exercises@.map_values(|e: Exercise| e@),
                word_list.deep_view(),
                target_word@,
            );
        }
        let ghost exs = exercises@.map_values(|e: Exercise| e@);
        let ghost list = word_list.deep_view();
        let n: usize = exercises.len();
        let mut best: Option<usize> = None;
        let mut best_score = ExerciseScore {
            words_not_in_list: 0,
            words_in_list: 0,
            words_not_seen: 0,
            last_seen_date: None,
            future_words_count: 0,
        };
        let mut i: usize = 0;
        while i < n
            invariant
                n == exercises@.len(),
                exs == exercises@.map_values(|e: Exercise| e@),
                list == word_list.deep_view(),
                i <= n,
                match best {
                    Some(b) => b < i && self.next_exercise_index(now, exs, list, target_word@)
                        == self.next_exercise_index_from(
                        now,
                        exs,
                        list,
                        target_word@,
                        i as int,
                        Some(b as int),
                    ) && best_score == self.spec_score(now, exs[b as int], list),
                    None => self.next_exercise_index(now, exs, list, target_word@)
                        == self.next_exercise_index_from(
                        now,
                        exs,
                        list,
                        target_word@,
                        i as int,
                        None,
                    ),
                },
            decreases n - i,
        {
            proof {
                assert(exs[i as int] == exercises@[i as int]@);
            }
            let words = exercises[i].words();
            if vec_contains_str(&words, target_word) {
                let score = self.score_exercise(now, &exercises[i], word_list);
                let better = match best {
                    None => true,
                    Some(_) => score_lt_exec(&score, &best_score),
                };
                if better {
                    best = Some(i);
                    best_score = score;
                }
            }
            i = i + 1;
        }
        match best {
            Some(b) => {
                let picked = exercises[b].clone();
                proof {
                    assert(picked@ == exs[b as int]);
                }
                Some(picked)
            },
            None => None,
        }
    }
}

/// How the learner stands against a target word list and a record pool.
#[derive(Debug, Clone, Copy, PartialEq, Eq)]
pub struct WordListStatus {
    /// Words in the target list.
    pub total_words: usize,
    /// Stored memory records of list words with a review scheduled after
    /// `now`.
    pub known_words: usize,
    /// Stored memory records of list words due at or before `now`.
    pub words_to_review: usize,
    /// Distinct unlocked records that have been presented.
    pub seen_sentences: usize,
    /// Distinct records holding at least one list word and no unseen word.
    pub unlocked_sentences: usize,
}

impl UserModel {
    /// How many stored records belong to list words and are due after `at`.
    pub open spec fn count_known(self, list: Seq<Seq<char>>, at: i64) -> int
        decreases self.words_view().len(),
    {
        count_known_of(self.words_view(), list, at)
    }

    /// How many stored records belong to list words and are due at or
    /// before `at`.
    pub open spec fn count_to_review(self, list: Seq<Seq<char>>, at: i64) -> int {
        count_to_review_of(self.words_view(), list, at)
    }

    /// A record is unlocked when it holds at least one list word and every
    /// one of its distinct words has a memory record.
    pub open spec fn spec_unlocked(self, list: Seq<Seq<char>>, ex: SpecExercise) -> bool {
        let ws = distinct_words_of(ex.segments);
        &&& exists|k: int| 0 <= k < ws.len() && list.contains(#[trigger] ws[k])
        &&& forall|k: int| 0 <= k < ws.len() ==> self.proficiency_of(#[trigger] ws[k]) is Some
    }

    /// Unlocked and already presented.
    pub open spec fn spec_seen_sentence(self, list: Seq<Seq<char>>, ex: SpecExercise) -> bool {
        self.spec_unlocked(list, ex) && self.last_seen_of(ex) is Some
    }

    /// How many distinct records of the pool are unlocked.
    pub open spec fn count_unlocked(self, list: Seq<Seq<char>>, exs: Seq<SpecExercise>) -> int
        decreases exs.len(),
    {
        if exs.len() == 0 {
            0
        } else {
            self.count_unlocked(list, exs.drop_last()) + if self.spec_unlocked(list, exs.last())
                && !exs.drop_last().contains(exs.last()) {
                1int
            } else {
                0int
            }
        }
    }

    /// How many distinct records of the pool are unlocked and presented.
    pub open spec fn count_seen_sentences(
        self,
        list: Seq<Seq<char>>,
        exs: Seq<SpecExercise>,
    ) -> int
        decreases exs.len(),
    {
        if exs.len() == 0 {
            0
        } else {
            self.count_seen_sentences(list, exs.drop_last()) + if self.spec_seen_sentence(
                list,
                exs.last(),
            ) && !exs.drop_last().contains(exs.last()) {
                1int
            } else {
                0int
            }
        }
    }

    /// Whether every distinct word of the list `words` has a memory record.
    fn all_words_seen(&self, words: &Vec<String>) -> (r: bool)
        ensures
            r == forall|k: int|
                0 <= k < words.deep_view().len() ==> self.proficiency_of(
                    #[trigger] words.deep_view()[k],
                ) is Some,
    {
        let n: usize = words.len();
        let mut i: usize = 0;
        while i < n
            invariant
                n == words@.len(),
                i <= n,
                forall|k: int|
                    0 <= k < i ==> self.proficiency_of(#[trigger] words.deep_view()[k]) is Some,
            decreases n - i,
        {
            proof {
                assert(words.deep_view()[i as int] == words@[i as int]@);
            }
            if !self.seen(words[i].as_str()) {
                return false;
            }
            i = i + 1;
        }
        true
    }

    /// Whether some word of `words` stands in `list`.
    fn any_word_in_list(words: &Vec<String>, list: &Vec<String>) -> (r: bool)
        ensures
            r == exists|k: int|
                0 <= k < words.deep_view().len() && list.deep_view().contains(
                    #[trigger] words.deep_view()[k],
                ),
    {
        let n: usize = words.len();
        let mut i: usize = 0;
        while i < n
            invariant
                n == words@.len(),
                i <= n,
                forall|k: int|
                    0 <= k < i ==> !list.deep_view().contains(#[trigger] words.deep_view()[k]),
            decreases n - i,
        {
            proof {
                assert(words.deep_view()[i as int] == words@[i as int]@);
            }
            if vec_contains_str(list, words[i].as_str()) {
                return true;
            }
            i = i + 1;
        }
        false
    }

    /// Whether an equal record stands earlier in the pool.
    fn occurs_before(exercises: &Vec<Exercise>, i: usize) -> (r: bool)
        requires
            i < exercises@.len(),
        ensures
            r == exercises@.map_values(|e: Exercise| e@).take(i as int).contains(
                exercises@.map_values(|e: Exercise| e@)[i as int],
            ),
    {
        let ghost exs = exercises@.map_values(|e: Exercise| e@);
        let mut j: usize = 0;
        while j < i
            invariant
                i < exercises@.len(),
                exs == exercises@.map_values(|e: Exercise| e@),
                j <= i,
                forall|k: int| 0 <= k < j ==> #[trigger] exs[k] != exs[i as int],
            decreases i - j,
        {
            proof {
                assert(exs[j as int] == exercises@[j as int]@);
                assert(exs[i as int] == exercises@[i as int]@);
            }
            if exercise_eq(&exercises[j], &exercises[i]) {
                proof {
                    assert(exs.take(i as int)[j as int] == exs[i as int]);
                }
                return true;
            }
            j = j + 1;
        }
        proof {
            assert forall|k: int|
                0 <= k < i implies #[trigger] exs.take(i as int)[k] != exs[i as int] by {
                assert(exs.take(i as int)[k] == exs[k]);
            }
        }
        false
    }

    /// The learner's standing: the list's size, how many list words are
    /// known and how many are due, and how many distinct pool records are
    /// unlocked and presented.
    pub fn status(
        &self,
        exercises: &Vec<Exercise>,
        word_list: &Vec<String>,
        at: i64,
    ) -> (r: WordListStatus)
        ensures
            r.total_words == word_list@.len(),
            r.known_words as int == self.count_known(word_list.deep_view(), at),
            r.words_to_review as int == self.count_to_review(word_list.deep_view(), at),
            r.unlocked_sentences as int == self.count_unlocked(
                word_list.deep_view(),
                exercises@.map_values(|e: Exercise| e@),
            ),
            r.seen_sentences as int == self.count_seen_sentences(
                word_list.deep_view(),
                exercises@.map_values(|e: Exercise| e@),
            ),
    {
        let ghost list = word_list.deep_view();
        let ghost wv = self.words_view();
        let total_words: usize = word_list.len();
        let wn: usize = self.seen_words.len();
        let mut known: usize = 0;
        let mut review: usize = 0;
        let mut i: usize = 0;
        proof {
            assert(wv.take(0) =~= Seq::<(Seq<char>, Proficiency)>::empty());
        }
        while i < wn
            invariant
                wn == self.seen_words@.len(),
                wv == self.words_view(),
                list == word_list.deep_view(),
                i <= wn,
                known as int == count_known_of(wv.take(i as int), list, at),
                review as int == count_to_review_of(wv.take(i as int), list, at),
                known <= i && review <= i,
            decreases wn - i,
        {
            proof {
                assert(wv.take(i + 1).drop_last() =~= wv.take(i as int));
                assert(wv.take(i + 1).last() == wv[i as int]);
                assert(wv[i as int].0 == self.seen_words@[i as int].0@);
                assert(wv[i as int].1 == self.seen_words@[i as int].1);
            }
            if vec_contains_str(word_list, self.seen_words[i].0.as_str()) {
                if self.seen_words[i].1.target_date > at {
                    known = known + 1;
                } else {
                    review = review + 1;
                }
            }
            i = i + 1;
        }
        proof {
            assert(wv.take(wn as int) =~= wv);
        }
        let ghost exs = exercises@.map_values(|e: Exercise| e@);
        let en: usize = exercises.len();
        let mut unlocked: usize = 0;
        let mut seen_s: usize = 0;
        let mut k: usize = 0;
        proof {
            assert(exs.take(0) =~= Seq::<SpecExercise>::empty());
        }
        while k < en
            invariant
                en == exercises@.len(),
                exs == exercises@.map_values(|e: Exercise| e@),
                list == word_list.deep_view(),
                k <= en,
                unlocked as int == self.count_unlocked(list, exs.take(k as int)),
                seen_s as int == self.count_seen_sentences(list, exs.take(k as int)),
                unlocked <= k && seen_s <= k,
            decreases en - k,
        {
            proof {
                assert(exs.take(k + 1).drop_last() =~= exs.take(k as int));
                assert(exs.take(k + 1).last() == exs[k as int]);
                assert(exs[k as int] == exercises@[k as int]@);
            }
            let ex = &exercises[k];
            let words = ex.words();
            let is_unlocked = UserModel::any_word_in_list(&words, word_list)
                && self.all_words_seen(&words);
            if is_unlocked && !UserModel::occurs_before(exercises, k) {
                unlocked = unlocked + 1;
                let was_seen = match self.find_exercise(ex) {
                    Some(_) => true,
                    None => false,
                };
                if was_seen {
                    seen_s = seen_s + 1;
                }
            }
            k = k + 1;
        }
        proof {
            assert(exs.take(en as int) =~= exs);
        }
        WordListStatus {
            total_words,
            known_words: known,
            words_to_review: review,
            seen_sentences: seen_s,
            unlocked_sentences: unlocked,
        }
    }
}

/// How many entries of the association sequence belong to list words and are
/// due after `at`.
pub open spec fn count_known_of(
    entries: Seq<(Seq<char>, Proficiency)>,
    list: Seq<Seq<char>>,
    at: i64,
) -> int
    decreases entries.len(),
{
    if entries.len() == 0 {
        0
    } else {
        count_known_of(entries.drop_last(), list, at) + if list.contains(entries.last().0)
            && entries.last().1.target_date > at {
            1int
        } else {
            0int
        }
    }
}

/// How many entries of the association sequence belong to list words and are
/// due at or before `at`.
pub open spec fn count_to_review_of(
    entries: Seq<(Seq<char>, Proficiency)>,
    list: Seq<Seq<char>>,
    at: i64,
) -> int
    decreases entries.len(),
{
    if entries.len() == 0 {
        0
    } else {
        count_to_review_of(entries.drop_last(), list, at) + if list.contains(entries.last().0)
            && entries.last().1.target_date <= at {
            1int
        } else {
            0int
        }
    }
}

} // verus!
