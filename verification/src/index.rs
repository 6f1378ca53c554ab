//! Position index: for every character key, the ascending list of positions
//! where the target records that character.

use vstd::prelude::*;
use vstd::string::StrSliceExecFns;
use crate::chars::{capital, capital_spec, lower_first, to_lower_first};
use crate::heatmap::MAX_STR_LEN;

verus! {

/// Position `i` of `s` is recorded under key `c` exactly (the character itself).
pub open spec fn records_exact(s: Seq<char>, i: int, c: char) -> bool {
    s[i] == c
}

/// Position `i` of `s` is recorded under key `c` by lowercase folding of a capital.
pub open spec fn records_folded(s: Seq<char>, i: int, c: char) -> bool {
    capital_spec(Some(s[i])) && lower_first(s[i]) == c
}

/// Position `i` of `s` is recorded under key `c`, exactly or by folding.
pub open spec fn records_at(s: Seq<char>, i: int, c: char) -> bool {
    records_exact(s, i, c) || records_folded(s, i, c)
}

/// What position `i` of `s` contributes to the list of key `c`.
pub open spec fn contribution(s: Seq<char>, i: int, c: char) -> Seq<u32> {
    (if records_exact(s, i, c) {
        seq![i as u32]
    } else {
        Seq::<u32>::empty()
    }) + (if records_folded(s, i, c) {
        seq![i as u32]
    } else {
        Seq::<u32>::empty()
    })
}

/// The ascending list of positions below `n` that `s` records under key `c`.
pub open spec fn occurrences(s: Seq<char>, c: char, n: int) -> Seq<u32>
    decreases n,
{
    if n <= 0 {
        Seq::empty()
    } else {
        occurrences(s, c, n - 1) + contribution(s, n - 1, c)
    }
}

/// The list a finished index holds for key `c` below `n`: absent when nothing
/// is recorded there.
pub open spec fn occurrences_entry(s: Seq<char>, c: char, n: int) -> Option<Seq<u32>> {
    if occurrences(s, c, n).len() == 0 {
        None
    } else {
        Some(occurrences(s, c, n))
    }
}

/// What the index of target `s` holds for key `c`.
pub open spec fn index_entry(s: Seq<char>, c: char) -> Option<Seq<u32>> {
    occurrences_entry(s, c, s.len() as int)
}

/// One key of the position index with the positions recorded under it.
pub struct CharEntry {
    pub key: char,
    pub positions: Vec<u32>,
}

/// The position index of a target string.
pub struct StrInfo {
    pub entries: Vec<CharEntry>,
}

/// The value of the first entry with key `c` at or after position `i`.
pub open spec fn assoc_get_from(s: Seq<CharEntry>, c: char, i: int) -> Option<Seq<u32>>
    decreases s.len() - i,
{
    if i < 0 || i >= s.len() {
        None
    } else if s[i].key == c {
        Some(s[i].positions@)
    } else {
        assoc_get_from(s, c, i + 1)
    }
}

impl StrInfo {
    /// The positions recorded under key `c`, if any.
    pub open spec fn spec_get(&self, c: char) -> Option<Seq<u32>> {
        assoc_get_from(self.entries@, c, 0)
    }

    /// Every key owns at most one entry.
    pub open spec fn distinct_keys(&self) -> bool {
        forall|i: int, j: int|
            0 <= i < j < self.entries@.len() ==> self.entries@[i].key != self.entries@[j].key
    }

    /// An empty index.
    pub fn new() -> (r: StrInfo)
        ensures
            r.distinct_keys(),
            forall|c: char| r.spec_get(c) is None,
    {
        StrInfo { entries: Vec::new() }
    }

    /// Look a key up.
    #[verifier::loop_isolation(false)]
    pub fn get<'a>(&'a self, c: char) -> (r: Option<&'a Vec<u32>>)
        ensures
            match r {
                None => self.spec_get(c) is None,
                Some(v) => self.spec_get(c) == Some(v@),
            },
    {
        let n = self.entries.len();
        let mut i: usize = 0;
        while i < n
            invariant
                0 <= i <= n,
                n == self.entries@.len(),
                assoc_get_from(self.entries@, c, 0) == assoc_get_from(self.entries@, c, i as int),
            decreases n - i,
        {
            if self.entries[i].key == c {
                return Some(&self.entries[i].positions);
            }
            i += 1;
        }
        None
    }

    /// Append a position to the list of `key`, creating the entry if absent.
    #[verifier::loop_isolation(false)]
    pub fn record(&mut self, key: char, pos: u32)
        requires
            old(self).distinct_keys(),
        ensures
            final(self).distinct_keys(),
            final(self).spec_get(key) == Some(
                match old(self).spec_get(key) {
                    None => seq![pos],
                    Some(s) => s.push(pos),
                },
            ),
            forall|c: char| c != key ==> final(self).spec_get(c) == old(self).spec_get(c),
    {
        let n = self.entries.len();
        let mut i: usize = 0;
        while i < n
            invariant
                0 <= i <= n,
                n == self.entries@.len(),
                self.entries@ == old(self).entries@,
                forall|m: int| 0 <= m < i ==> self.entries@[m].key != key,
            decreases n - i,
        {
            if self.entries[i].key == key {
                let ghost pre = self.entries@;
                self.entries[i].positions.push(pos);
                proof {
                    assert(self.entries@[i as int].key == key);
                    assert(self.entries@[i as int].positions@ == pre[i as int].positions@.push(
                        pos,
                    ));
                    assert(forall|m: int|
                        0 <= m < pre.len() && m != i ==> self.entries@[m] == pre[m]);
                    assert(forall|m: int|
                        0 <= m < pre.len() ==> self.entries@[m].key == pre[m].key);
                    lemma_assoc_skip(pre, key, i as int);
                    lemma_assoc_update(pre, self.entries@, i as int, key);
                    assert forall|a: int, b: int|
                        0 <= a < b < self.entries@.len() implies self.entries@[a].key
                        != self.entries@[b].key by {
                        assert(self.entries@[a].key == pre[a].key);
                        assert(self.entries@[b].key == pre[b].key);
                    }
                }
                return;
            }
            i += 1;
        }
        let ghost pre = self.entries@;
        let mut positions: Vec<u32> = Vec::new();
        positions.push(pos);
        self.entries.push(CharEntry { key, positions });
        proof {
            lemma_assoc_skip(pre, key, n as int);
            lemma_assoc_push(pre, self.entries@[n as int], key);
            assert(self.entries@[n as int].positions@ =~= seq![pos]);
        }
    }
}

/// Build the position index of `s`: every position is recorded under its own
/// character, and a capital is recorded under its lowercase folding besides.
#[verifier::loop_isolation(false)]
pub fn get_hash_for_string(result: &mut StrInfo, s: &str)
    requires
        s@.len() <= MAX_STR_LEN,
    ensures
        final(result).distinct_keys(),
        forall|c: char| #[trigger] final(result).spec_get(c) == index_entry(s@, c),
{
    result.entries.clear();
    proof {
        assert(forall|c: char| result.spec_get(c) is None);
    }
    let str_len: usize = s.unicode_len();
    let mut i: usize = 0;
    while i < str_len
        invariant
            0 <= i <= str_len,
            result.distinct_keys(),
            forall|c: char| #[trigger] result.spec_get(c) == occurrences_entry(s@, c, i as int),
        decreases str_len - i,
    {
        let ch = s.get_char(i);
        let ghost prev = *result;
        if capital(Some(ch)) {
            result.record(ch, i as u32);
            let down = to_lower_first(ch);
            result.record(down, i as u32);
        } else {
            result.record(ch, i as u32);
        }
        proof {
            lemma_record_step(prev, *result, s@, i as int, ch);
        }
        i += 1;
    }
}

/// The composite effect of one scan step on the lookups of the index.
pub open spec fn step_effect(prev: StrInfo, cur: StrInfo, i: int, ch: char) -> bool {
    if capital_spec(Some(ch)) {
        &&& cur.spec_get(lower_first(ch)) == Some(
            match mid_get_all(prev, ch, i, lower_first(ch)) {
                None => seq![i as u32],
                Some(q) => q.push(i as u32),
            },
        )
        &&& forall|cc: char|
            cc != lower_first(ch) ==> cur.spec_get(cc) == mid_get_all(prev, ch, i, cc)
    } else {
        &&& cur.spec_get(ch) == Some(
            match prev.spec_get(ch) {
                None => seq![i as u32],
                Some(q) => q.push(i as u32),
            },
        )
        &&& forall|cc: char| cc != ch ==> cur.spec_get(cc) == prev.spec_get(cc)
    }
}

/// One scan step extends each key's list by that position's contribution.
proof fn lemma_record_step(prev: StrInfo, cur: StrInfo, s: Seq<char>, i: int, ch: char)
    requires
        0 <= i < s.len(),
        s[i] == ch,
        forall|c: char| #[trigger] prev.spec_get(c) == occurrences_entry(s, c, i),
        step_effect(prev, cur, i, ch),
    ensures
        forall|c: char| #[trigger] cur.spec_get(c) == occurrences_entry(s, c, i + 1),
{
    assert forall|c: char| #[trigger] cur.spec_get(c) == occurrences_entry(s, c, i + 1) by {
        lemma_occurrence_step(prev, cur, s, i, ch, c);
    }
}

/// The lookup of `c` between the two records of a capital character's step.
pub open spec fn mid_get_all(prev: StrInfo, ch: char, i: int, c: char) -> Option<Seq<u32>> {
    if c == ch {
        Some(
            match prev.spec_get(ch) {
                None => seq![i as u32],
                Some(q) => q.push(i as u32),
            },
        )
    } else {
        prev.spec_get(c)
    }
}

proof fn lemma_occurrence_step(prev: StrInfo, cur: StrInfo, s: Seq<char>, i: int, ch: char, c: char)
    requires
        0 <= i < s.len(),
        s[i] == ch,
        forall|cc: char| #[trigger] prev.spec_get(cc) == occurrences_entry(s, cc, i),
        step_effect(prev, cur, i, ch),
    ensures
        cur.spec_get(c) == occurrences_entry(s, c, i + 1),
{
    let occ_i = occurrences(s, c, i);
    let occ_n = occurrences(s, c, i + 1);
    assert(occ_n == occ_i + contribution(s, i, c));
    if capital_spec(Some(ch)) {
        if lower_first(ch) == ch {
            if c == ch {
                assert(records_exact(s, i, c) && records_folded(s, i, c));
                assert(occ_n =~= occ_i.push(i as u32).push(i as u32));
            } else {
                assert(!records_exact(s, i, c) && !records_folded(s, i, c));
                assert(occ_n =~= occ_i);
            }
        } else {
            if c == ch {
                assert(records_exact(s, i, c) && !records_folded(s, i, c));
                assert(occ_n =~= occ_i.push(i as u32));
            } else if c == lower_first(ch) {
                assert(!records_exact(s, i, c) && records_folded(s, i, c));
                assert(occ_n =~= occ_i.push(i as u32));
            } else {
                assert(occ_n =~= occ_i);
            }
        }
    } else {
        if c == ch {
            assert(records_exact(s, i, c) && !records_folded(s, i, c));
            assert(occ_n =~= occ_i.push(i as u32));
        } else {
            assert(occ_n =~= occ_i);
        }
    }
}

/// Every recorded occurrence lies below `n` and matches its key.
pub proof fn lemma_occurrences_wf(s: Seq<char>, c: char, n: int)
    requires
        n <= s.len(),
        n <= u32::MAX,
    ensures
        forall|k: int|
            0 <= k < occurrences(s, c, n).len() ==> 0 <= #[trigger] occurrences(s, c, n)[k] < n
                && records_at(s, occurrences(s, c, n)[k] as int, c),
    decreases n,
{
    if n > 0 {
        lemma_occurrences_wf(s, c, n - 1);
        let occ = occurrences(s, c, n);
        let pre = occurrences(s, c, n - 1);
        assert forall|k: int| 0 <= k < occ.len() implies 0 <= #[trigger] occ[k] < n && records_at(
            s,
            occ[k] as int,
            c,
        ) by {
            if k < pre.len() {
                assert(occ[k] == pre[k]);
            } else {
                assert(occ[k] == (n - 1) as u32);
                if records_exact(s, n - 1, c) {
                } else {
                    assert(records_folded(s, n - 1, c));
                }
            }
        }
    }
}

/// The subsequence of `s` whose elements are strictly bigger than `val`;
/// all of `s` when no bound is given.
pub open spec fn bigger_than(s: Seq<u32>, val: Option<u32>) -> Seq<u32>
    decreases s.len(),
{
    if s.len() == 0 {
        Seq::empty()
    } else {
        bigger_than(s.drop_last(), val) + (match val {
            None => seq![s.last()],
            Some(v) => if s.last() > v {
                seq![s.last()]
            } else {
                Seq::<u32>::empty()
            },
        })
    }
}

/// Append to `result` the elements of `sorted_list` bigger than `val`; with no
/// list append nothing, and with no bound append the whole list.
#[verifier::loop_isolation(false)]
pub fn bigger_sublist(result: &mut Vec<u32>, sorted_list: Option<&Vec<u32>>, val: Option<u32>)
    ensures
        final(result)@ == old(result)@ + (match sorted_list {
            None => Seq::<u32>::empty(),
            Some(sl) => bigger_than(sl@, val),
        }),
{
    match sorted_list {
        None => {
            proof {
                assert(result@ =~= result@ + Seq::<u32>::empty());
            }
        },
        Some(sl) => {
            proof {
                assert(result@ =~= result@ + bigger_than(sl@.take(0), val));
            }
            let mut i: usize = 0;
            while i < sl.len()
                invariant
                    0 <= i <= sl@.len(),
                    result@ == old(result)@ + bigger_than(sl@.take(i as int), val),
                decreases sl@.len() - i,
            {
                let keep = match val {
                    Some(v) => sl[i] > v,
                    None => true,
                };
                if keep {
                    result.push(sl[i]);
                }
                proof {
                    assert(sl@.take(i + 1).drop_last() =~= sl@.take(i as int));
                    assert(sl@.take(i + 1).last() == sl@[i as int]);
                    assert(result@ =~= old(result)@ + bigger_than(sl@.take(i + 1), val));
                }
                i += 1;
            }
            proof {
                assert(sl@.take(sl@.len() as int) =~= sl@);
            }
        },
    }
}

/// Skipping entries whose key is not `c` does not change the lookup.
proof fn lemma_assoc_skip(s: Seq<CharEntry>, c: char, i: int)
    requires
        0 <= i <= s.len(),
        forall|m: int| 0 <= m < i ==> s[m].key != c,
    ensures
        assoc_get_from(s, c, 0) == assoc_get_from(s, c, i),
    decreases i,
{
    if i > 0 {
        lemma_assoc_skip(s, c, i - 1);
    }
}

/// Replacing the positions of the first entry of a key changes exactly that key's lookup.
proof fn lemma_assoc_update(s: Seq<CharEntry>, t: Seq<CharEntry>, j: int, key: char)
    requires
        0 <= j < s.len(),
        t.len() == s.len(),
        s[j].key == key,
        t[j].key == key,
        forall|m: int| 0 <= m < s.len() && m != j ==> t[m] == s[m],
        forall|m: int| 0 <= m < j ==> s[m].key != key,
    ensures
        assoc_get_from(t, key, 0) == Some(t[j].positions@),
        forall|c: char| c != key ==> assoc_get_from(t, c, 0) == assoc_get_from(s, c, 0),
{
    assert(forall|m: int| 0 <= m < j ==> t[m].key != key);
    lemma_assoc_skip(t, key, j);
    assert forall|c: char| c != key implies assoc_get_from(t, c, 0) == assoc_get_from(s, c, 0) by {
        lemma_assoc_unchanged(s, t, j, c, 0);
    }
}

/// Entry `j` kept its key, so every other key reads the same in both lists.
proof fn lemma_assoc_unchanged(s: Seq<CharEntry>, t: Seq<CharEntry>, j: int, c: char, i: int)
    requires
        0 <= j < s.len(),
        t.len() == s.len(),
        s[j].key == t[j].key,
        c != s[j].key,
        forall|m: int| 0 <= m < s.len() && m != j ==> t[m] == s[m],
        0 <= i <= s.len(),
    ensures
        assoc_get_from(t, c, i) == assoc_get_from(s, c, i),
    decreases s.len() - i,
{
    if i < s.len() {
        lemma_assoc_unchanged(s, t, j, c, i + 1);
    }
}

/// Appending an entry leaves present keys alone and serves absent ones from it.
proof fn lemma_assoc_push(s: Seq<CharEntry>, e: CharEntry, key: char)
    requires
        e.key == key,
    ensures
        forall|c: char, i: int|
            0 <= i <= s.len() ==> #[trigger] assoc_get_from(s.push(e), c, i) == (
            match assoc_get_from(s, c, i) {
                Some(v) => Some(v),
                None => if c == key {
                    Some(e.positions@)
                } else {
                    None
                },
            }),
{
    assert forall|c: char, i: int| 0 <= i <= s.len() implies #[trigger] assoc_get_from(
        s.push(e),
        c,
        i,
    ) == (match assoc_get_from(s, c, i) {
        Some(v) => Some(v),
        None => if c == key {
            Some(e.positions@)
        } else {
            None
        },
    }) by {
        lemma_assoc_push_at(s, e, c, i);
    }
}

proof fn lemma_assoc_push_at(s: Seq<CharEntry>, e: CharEntry, c: char, i: int)
    requires
        0 <= i <= s.len(),
    ensures
        assoc_get_from(s.push(e), c, i) == (match assoc_get_from(s, c, i) {
            Some(v) => Some(v),
            None => if c == e.key {
                Some(e.positions@)
            } else {
                None
            },
        }),
    decreases s.len() - i,
{
    let t = s.push(e);
    if i < s.len() {
        assert(t[i] == s[i]);
        lemma_assoc_push_at(s, e, c, i + 1);
    } else {
        assert(i == s.len());
        assert(t[i] == e);
        assert(assoc_get_from(s, c, i) is None);
        if t[i].key == c {
            assert(assoc_get_from(t, c, i) == Some(e.positions@));
        } else {
            assert(assoc_get_from(t, c, i) == assoc_get_from(t, c, i + 1));
            assert(assoc_get_from(t, c, i + 1) is None);
        }
    }
}

} // verus!
