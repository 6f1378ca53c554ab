//! Per-position heatmap scores of a target string.
//!
//! Every position starts from a strong default penalty and earns bonuses for
//! being a good match anchor: the start of a word, a position in the basepath
//! group (the last group with a word boundary), the final position.  Positions
//! deep inside words, after many separators, or right after a `.` are
//! penalized.

use vstd::prelude::*;
use vstd::string::StrSliceExecFns;
use crate::chars::{boundary, boundary_spec, word, word_spec};

verus! {

/// Longest target or query the scorer accepts; keeps every score within `i32`.
pub const MAX_STR_LEN: usize = 8192;

/// Magic number for the default baseline score of a position.
pub const DEFAULT_SCORE: i32 = -35;

/// The largest magnitude any heatmap entry of a target of length `len` can reach.
pub open spec fn max_heat(len: int) -> int {
    250 + 7 * len
}

/// A maximal run of target characters between group separators: its start
/// position (the separator's, or -1 for the first group), its word count, and
/// the ascending positions of its word boundaries.
pub struct GroupModel {
    pub start: int,
    pub word_count: int,
    pub boundaries: Seq<int>,
}

/// A group as the scan builds it.
pub struct Group {
    pub start: i32,
    pub word_count: i32,
    pub boundaries: Vec<i32>,
}

impl View for Group {
    type V = GroupModel;

    open spec fn view(&self) -> GroupModel {
        GroupModel {
            start: self.start as int,
            word_count: self.word_count as int,
            boundaries: self.boundaries@.map_values(|x: i32| x as int),
        }
    }
}

/// The groups list as the scan's mathematical state sees it; newest group last.
pub open spec fn groups_view(gs: Seq<Group>) -> Seq<GroupModel> {
    gs.map_values(|g: Group| g@)
}

/// The scan's running state: the open word count and the groups found so far.
pub struct ScanState {
    pub gwc: int,
    pub groups: Seq<GroupModel>,
}

/// The character before position `i`, if any.
pub open spec fn last_char_at(s: Seq<char>, i: int) -> Option<char> {
    if i == 0 {
        None
    } else {
        Some(s[i - 1])
    }
}

/// The scan starts with one group at start -1 and no open words.
pub open spec fn scan_init() -> ScanState {
    ScanState {
        gwc: 0,
        groups: seq![GroupModel { start: -1, word_count: 0, boundaries: Seq::empty() }],
    }
}

/// One step of the scan at position `i`: record a word boundary in the
/// current group, count word starts, and open a new group on the separator.
pub open spec fn scan_step(st: ScanState, s: Seq<char>, sep: Option<char>, i: int) -> ScanState {
    let last = last_char_at(s, i);
    let eff = if st.gwc == 0 {
        None
    } else {
        last
    };
    let gl = st.groups.last();
    let g1 = if boundary_spec(eff, Some(s[i])) {
        GroupModel { start: gl.start, word_count: gl.word_count, boundaries: gl.boundaries.push(i) }
    } else {
        gl
    };
    let gwc1 = st.gwc + if !word_spec(last) && word_spec(Some(s[i])) {
        1int
    } else {
        0int
    };
    if sep == Some(s[i]) {
        ScanState {
            gwc: 0,
            groups: st.groups.update(
                st.groups.len() - 1,
                GroupModel { start: g1.start, word_count: gwc1, boundaries: g1.boundaries },
            ).push(GroupModel { start: i, word_count: 0, boundaries: Seq::empty() }),
        }
    } else {
        ScanState { gwc: gwc1, groups: st.groups.update(st.groups.len() - 1, g1) }
    }
}

/// The scan's state after the first `n` positions.
pub open spec fn scan(s: Seq<char>, sep: Option<char>, n: int) -> ScanState
    decreases n,
{
    if n <= 0 {
        scan_init()
    } else {
        scan_step(scan(s, sep, n - 1), s, sep, n - 1)
    }
}

/// The groups of the whole target: the scan's groups with the open word count
/// written into the last one.
pub open spec fn final_groups(s: Seq<char>, sep: Option<char>) -> Seq<GroupModel> {
    let st = scan(s, sep, s.len() as int);
    let gl = st.groups.last();
    st.groups.update(
        st.groups.len() - 1,
        GroupModel { start: gl.start, word_count: st.gwc, boundaries: gl.boundaries },
    )
}

/// Shape facts the scan guarantees after `n` positions of a target of length `len`.
pub open spec fn groups_wf(gs: Seq<GroupModel>, n: int, len: int) -> bool {
    &&& 1 <= gs.len() <= n + 1
    &&& gs[0].start == -1
    &&& forall|k: int| 0 <= k < gs.len() ==> -1 <= #[trigger] gs[k].start < n
    &&& forall|k: int| 0 <= k < gs.len() - 1 ==> #[trigger] gs[k].start < gs[k + 1].start
    &&& forall|k: int| 0 <= k < gs.len() ==> 0 <= #[trigger] gs[k].word_count <= len
    &&& forall|k: int| 0 <= k < gs.len() ==> #[trigger] gs[k].boundaries.len() <= n
    &&& forall|k: int, b: int|
        0 <= k < gs.len() && 0 <= b < gs[k].boundaries.len() ==> gs[k].start
            < #[trigger] gs[k].boundaries[b] && gs[k].boundaries[b] < n
    &&& forall|k: int, b: int|
        0 <= k < gs.len() - 1 && 0 <= b < gs[k].boundaries.len() ==> #[trigger] gs[k].boundaries[b]
            <= gs[k + 1].start
    &&& forall|k: int, b: int|
        (0 <= k < gs.len() && 0 <= b && b + 1 < gs[k].boundaries.len()) ==> #[trigger] gs[k].boundaries[b] < gs[k].boundaries[b + 1]
}

/// The scan's state is well formed and its word count bounded.
pub open spec fn scan_wf(st: ScanState, n: int, len: int) -> bool {
    &&& groups_wf(st.groups, n, len)
    &&& 0 <= st.gwc <= n
}

/// One scan step keeps the state well formed.
#[verifier::rlimit(100)]
proof fn lemma_scan_step_wf(st: ScanState, s: Seq<char>, sep: Option<char>, i: int, len: int)
    requires
        0 <= i < len,
        len == s.len(),
        scan_wf(st, i, len),
    ensures
        scan_wf(scan_step(st, s, sep, i), i + 1, len),
{
    let st2 = scan_step(st, s, sep, i);
    let n1 = st.groups.len() as int;
    let last = last_char_at(s, i);
    let eff = if st.gwc == 0 {
        None
    } else {
        last
    };
    let gl = st.groups.last();
    let g1 = if boundary_spec(eff, Some(s[i])) {
        GroupModel { start: gl.start, word_count: gl.word_count, boundaries: gl.boundaries.push(i) }
    } else {
        gl
    };
    assert(g1.start == gl.start);
    assert(gl == st.groups[n1 - 1]);
    assert(forall|b: int| 0 <= b < gl.boundaries.len() ==> gl.start < #[trigger] gl.boundaries[b] < i);
    assert(forall|b: int|
        0 <= b && b + 1 < gl.boundaries.len() ==> #[trigger] gl.boundaries[b] < gl.boundaries[b
            + 1]);
    assert forall|b: int| 0 <= b < g1.boundaries.len() implies gl.start < #[trigger] g1.boundaries[b]
        <= i by {
        if b < gl.boundaries.len() {
            assert(g1.boundaries[b] == gl.boundaries[b]);
        }
    }
    assert forall|b: int| 0 <= b && b + 1 < g1.boundaries.len() implies #[trigger] g1.boundaries[b]
        < g1.boundaries[b + 1] by {
        if g1.boundaries.len() > gl.boundaries.len() {
            assert(g1.boundaries[b] == gl.boundaries[b]);
            if b + 1 < gl.boundaries.len() {
                assert(g1.boundaries[b + 1] == gl.boundaries[b + 1]);
            } else {
                assert(g1.boundaries[b + 1] == i);
            }
        }
    }
    if sep == Some(s[i]) {
        assert(st2.groups.len() == n1 + 1);
        assert(forall|k: int| 0 <= k < n1 - 1 ==> st2.groups[k] == st.groups[k]);
        assert(st2.groups[n1 - 1].start == gl.start);
        assert(st2.groups[n1 - 1].boundaries == g1.boundaries);
        assert(st2.groups[n1].start == i);
        assert(st2.groups[n1].boundaries.len() == 0);
    } else {
        assert(st2.groups.len() == n1);
        assert(forall|k: int| 0 <= k < n1 - 1 ==> st2.groups[k] == st.groups[k]);
        assert(st2.groups[n1 - 1] == g1);
    }
}

/// The scan keeps its state well formed.
pub proof fn lemma_scan_wf(s: Seq<char>, sep: Option<char>, n: int, len: int)
    requires
        0 <= n <= len,
        len == s.len(),
    ensures
        scan_wf(scan(s, sep, n), n, len),
    decreases n,
{
    if n > 0 {
        lemma_scan_wf(s, sep, n - 1, len);
        lemma_scan_step_wf(scan(s, sep, n - 1), s, sep, n - 1, len);
    }
}

/// The finished groups are well formed too.
pub proof fn lemma_final_groups_wf(s: Seq<char>, sep: Option<char>)
    ensures
        groups_wf(final_groups(s, sep), s.len() as int, s.len() as int),
{
    lemma_scan_wf(s, sep, s.len() as int, s.len() as int);
}

/// The baseline score of position `i` before group scoring: the default
/// penalty, the final-position bonus, the extension penalty after a literal
/// `.`, and the uniform group-count penalty.
pub open spec fn base_score(s: Seq<char>, gc: int, i: int) -> int {
    DEFAULT_SCORE + (if i == s.len() - 1 {
        1int
    } else {
        0int
    }) + (if i >= 1 && s[i - 1] == '.' {
        -45int
    } else {
        0int
    }) + (if gc > 1 {
        -2 * gc
    } else {
        0int
    })
}

/// The score a group adds to every position of its span.
pub open spec fn group_num(g: GroupModel, index2: int, sep_count: int, bp: bool) -> int {
    if bp {
        35 + (if sep_count > 1 {
            sep_count - 1
        } else {
            0int
        }) - g.word_count
    } else if index2 == 0 {
        -3
    } else {
        -5 + index2 - 1
    }
}

/// Add `num` to every position in `[beg, end)`.
pub open spec fn inc_range_spec(sc: Seq<int>, beg: int, end: int, num: int) -> Seq<int> {
    Seq::new(
        sc.len(),
        |j: int|
            if beg <= j < end {
                sc[j] + num
            } else {
                sc[j]
            },
    )
}

/// One word's scoring: the boundary bonus at `w`, then the word-order and
/// char-order penalties on `[w, end)`.
pub open spec fn word_step(sc: Seq<int>, w: int, end: int, wi: int) -> Seq<int> {
    Seq::new(
        sc.len(),
        |j: int|
            (if j == w {
                sc[j] + 85
            } else {
                sc[j]
            }) + (if w <= j < end {
                -3 * wi - (j - w)
            } else {
                0int
            }),
    )
}

/// Score the words of a group, newest first, each up to the previous one.
pub open spec fn apply_words(bs: Seq<int>, sc: Seq<int>, last_word: int, wi: int) -> Seq<int>
    decreases bs.len(),
{
    if bs.len() == 0 {
        sc
    } else {
        apply_words(bs.drop_last(), word_step(sc, bs.last(), last_word, wi), bs.last(), wi - 1)
    }
}

/// Score one group: its span bonus, then its words.
pub open spec fn apply_group(
    g: GroupModel,
    sc: Seq<int>,
    limit: int,
    index2: int,
    sep_count: int,
    bp: bool,
) -> Seq<int> {
    apply_words(
        g.boundaries,
        inc_range_spec(sc, g.start + 1, limit, group_num(g, index2, sep_count, bp)),
        limit,
        g.boundaries.len() - 1,
    )
}

/// Score the groups from the last found to the first; the first group met
/// with a word boundary is the basepath group.
pub open spec fn process_groups(
    gs: Seq<GroupModel>,
    sc: Seq<int>,
    index2: int,
    limit: int,
    sep_count: int,
    bp_found: bool,
) -> Seq<int>
    decreases gs.len(),
{
    if gs.len() == 0 {
        sc
    } else {
        let g = gs.last();
        let bp = g.boundaries.len() != 0 && !bp_found;
        process_groups(
            gs.drop_last(),
            apply_group(g, sc, limit, index2, sep_count, bp),
            index2 - 1,
            g.start + 1,
            sep_count,
            bp_found || bp,
        )
    }
}

proof fn lemma_apply_words_len(bs: Seq<int>, sc: Seq<int>, last_word: int, wi: int)
    ensures
        apply_words(bs, sc, last_word, wi).len() == sc.len(),
    decreases bs.len(),
{
    if bs.len() > 0 {
        lemma_apply_words_len(bs.drop_last(), word_step(sc, bs.last(), last_word, wi), bs.last(), wi - 1);
    }
}

proof fn lemma_process_groups_len(
    gs: Seq<GroupModel>,
    sc: Seq<int>,
    index2: int,
    limit: int,
    sep_count: int,
    bp_found: bool,
)
    ensures
        process_groups(gs, sc, index2, limit, sep_count, bp_found).len() == sc.len(),
    decreases gs.len(),
{
    if gs.len() > 0 {
        let g = gs.last();
        let bp = g.boundaries.len() != 0 && !bp_found;
        lemma_apply_words_len(
            g.boundaries,
            inc_range_spec(sc, g.start + 1, limit, group_num(g, index2, sep_count, bp)),
            limit,
            g.boundaries.len() - 1,
        );
        lemma_process_groups_len(
            gs.drop_last(),
            apply_group(g, sc, limit, index2, sep_count, bp),
            index2 - 1,
            g.start + 1,
            sep_count,
            bp_found || bp,
        );
    }
}

/// The heatmap has one score per target position.
pub proof fn lemma_heatmap_len(s: Seq<char>, sep: Option<char>)
    ensures
        heatmap_spec(s, sep).len() == s.len(),
{
    let gs = final_groups(s, sep);
    let gc = gs.len() as int;
    let init = Seq::new(s.len(), |i: int| base_score(s, gc, i));
    lemma_process_groups_len(gs, init, gc - 1, s.len() as int, gc - 1, false);
}

/// The heatmap of a target: one score for each position.
pub open spec fn heatmap_spec(s: Seq<char>, sep: Option<char>) -> Seq<int> {
    let gs = final_groups(s, sep);
    let gc = gs.len() as int;
    let init = Seq::new(s.len(), |i: int| base_score(s, gc, i));
    process_groups(gs, init, gc - 1, s.len() as int, gc - 1, false)
}

/// The scores vector read as a sequence of integers.
pub open spec fn int_view(sc: Seq<i32>) -> Seq<int> {
    sc.map_values(|x: i32| x as int)
}

/// The effective lower bound of `inc_vec`'s range.
pub open spec fn inc_beg(beg: Option<i32>) -> int {
    match beg {
        None => 0,
        Some(b) => b as int,
    }
}

/// The effective upper bound of `inc_vec`'s range, given the vector's length.
pub open spec fn inc_end(end: Option<i32>, len: int) -> int {
    match end {
        None => len,
        Some(e) => e as int,
    }
}

/// The effective increment of `inc_vec`.
pub open spec fn inc_amount(inc: Option<i32>) -> int {
    match inc {
        None => 1,
        Some(x) => x as int,
    }
}

/// Increment each element of `vec` with index in `[beg, end)` by `inc`.
/// A missing `inc` means 1, a missing `beg` means 0, a missing `end` means the length.
#[verifier::loop_isolation(false)]
pub fn inc_vec(vec: &mut Vec<i32>, inc: Option<i32>, beg: Option<i32>, end: Option<i32>)
    requires
        old(vec)@.len() <= MAX_STR_LEN,
        inc_beg(beg) < inc_end(end, old(vec)@.len() as int) ==> {
            &&& 0 <= inc_beg(beg)
            &&& inc_end(end, old(vec)@.len() as int) <= old(vec)@.len()
        },
        forall|j: int| #![trigger old(vec)@[j]]
            inc_beg(beg) <= j < inc_end(end, old(vec)@.len() as int) ==> i32::MIN <= old(
                vec,
            )@[j] + inc_amount(inc) <= i32::MAX,
    ensures
        final(vec)@.len() == old(vec)@.len(),
        forall|j: int|
            0 <= j < old(vec)@.len() ==> final(vec)@[j] == if inc_beg(beg) <= j < inc_end(
                end,
                old(vec)@.len() as int,
            ) {
                old(vec)@[j] + inc_amount(inc)
            } else {
                old(vec)@[j] as int
            },
{
    let len: usize = vec.len();
    let _inc: i32 = match inc {
        Some(x) => x,
        None => 1,
    };
    let mut cur: i32 = match beg {
        Some(b) => b,
        None => 0,
    };
    let _end: i32 = match end {
        Some(e) => e,
        None => len as i32,
    };
    while cur < _end
        invariant
            vec@.len() == old(vec)@.len(),
            inc_beg(beg) <= cur as int,
            cur as int <= inc_end(end, old(vec)@.len() as int) || cur as int == inc_beg(beg),
            forall|j: int|
                0 <= j < old(vec)@.len() ==> vec@[j] == if inc_beg(beg) <= j < cur as int {
                    old(vec)@[j] + inc_amount(inc)
                } else {
                    old(vec)@[j] as int
                },
        decreases _end - cur,
    {
        vec[cur as usize] += _inc;
        cur += 1;
    }
}

/// A scores vector that holds the baseline pointwise is the baseline sequence,
/// and is small.
proof fn lemma_base_view(t: Seq<char>, sc: Seq<i32>, gc: int)
    requires
        sc.len() == t.len(),
        1 <= gc <= t.len() + 1,
        forall|j: int| 0 <= j < t.len() ==> #[trigger] sc[j] as int == base_score(t, gc, j),
    ensures
        int_view(sc) == Seq::new(t.len(), |i: int| base_score(t, gc, i)),
        forall|j: int|
            0 <= j < t.len() ==> -(83 + 2 * t.len()) <= #[trigger] sc[j] as int <= 83 + 2
                * t.len(),
{
    assert(int_view(sc) =~= Seq::new(t.len(), |i: int| base_score(t, gc, i)));
}

/// Scan the target once: baseline scores (default, final-position bonus,
/// extension penalty) and the groups with their word boundaries.
#[verifier::loop_isolation(false)]
#[verifier::rlimit(100)]
fn build_groups(scores: &mut Vec<i32>, s: &str, group_separator: Option<char>) -> (groups: Vec<
    Group,
>)
    requires
        1 <= s@.len() <= MAX_STR_LEN,
    ensures
        final(scores)@.len() == s@.len(),
        forall|j: int|
            0 <= j < s@.len() ==> #[trigger] final(scores)@[j] as int == DEFAULT_SCORE + (if j
                == s@.len() - 1 {
                1int
            } else {
                0int
            }) + (if 1 <= j && s@[j - 1] == '.' {
                -45int
            } else {
                0int
            }),
        groups_view(groups@) == final_groups(s@, group_separator),
{
    let ghost t = s@;
    let ghost sep = group_separator;
    let str_len: usize = s.unicode_len();
    let ghost len = str_len as int;
    let str_last_index: usize = str_len - 1;
    scores.clear();
    let mut k: usize = 0;
    while k < str_len
        invariant
            0 <= k <= str_len,
            scores@.len() == k,
            forall|j: int| 0 <= j < k ==> scores@[j] == DEFAULT_SCORE,
        decreases str_len - k,
    {
        scores.push(DEFAULT_SCORE);
        k += 1;
    }
    let mut group_alist: Vec<Group> = Vec::new();
    group_alist.push(Group { start: -1, word_count: 0, boundaries: Vec::new() });
    proof {
        assert(group_alist@[0]@.boundaries =~= Seq::<int>::empty());
        assert(group_alist@[0]@ == scan_init().groups[0]);
        assert(groups_view(group_alist@) =~= scan_init().groups);
    }

    // final char bonus
    scores[str_last_index] += 1;

    let mut last_char: Option<char> = None;
    let mut group_word_count: i32 = 0;
    let mut index1: usize = 0;

    while index1 < str_len
        invariant
            0 <= index1 <= str_len,
            scores@.len() == str_len,
            last_char == last_char_at(t, index1 as int),
            group_word_count as int == scan(t, sep, index1 as int).gwc,
            groups_view(group_alist@) == scan(t, sep, index1 as int).groups,
            group_alist@.len() >= 1,
            forall|j: int|
                0 <= j < str_len ==> #[trigger] scores@[j] as int == DEFAULT_SCORE + (if j == len
                    - 1 {
                    1int
                } else {
                    0int
                }) + (if 1 <= j < index1 as int && t[j - 1] == '.' {
                    -45int
                } else {
                    0int
                }),
        decreases str_len - index1,
    {
        let ghost st_pre = scan(t, sep, index1 as int);
        proof {
            lemma_scan_wf(t, sep, index1 as int, len);
        }
        let ch = s.get_char(index1);
        let effective_last_char: Option<char> = if group_word_count == 0 {
            None
        } else {
            last_char
        };

        let ghost g1 = if boundary_spec(
            if st_pre.gwc == 0 {
                None
            } else {
                last_char_at(t, index1 as int)
            },
            Some(t[index1 as int]),
        ) {
            GroupModel {
                start: st_pre.groups.last().start,
                word_count: st_pre.groups.last().word_count,
                boundaries: st_pre.groups.last().boundaries.push(index1 as int),
            }
        } else {
            st_pre.groups.last()
        };
        if boundary(effective_last_char, Some(ch)) {
            let mut g = group_alist.pop().unwrap();
            g.boundaries.push(index1 as i32);
            group_alist.push(g);
            proof {
                assert(group_alist@.last()@.boundaries =~= st_pre.groups.last().boundaries.push(
                    index1 as int,
                ));
                assert(group_alist@.last()@ == g1);
            }
        }
        proof {
            assert(groups_view(group_alist@) =~= st_pre.groups.update(
                st_pre.groups.len() - 1,
                g1,
            ));
        }
        let ghost mid_view = groups_view(group_alist@);

        if !word(last_char) && word(Some(ch)) {
            group_word_count += 1;
        }

        // ++++ -45 penalize extension
        match last_char {
            Some(lc) => if lc == '.' {
                scores[index1] += -45;
            },
            None => {},
        }

        let ghost gwc1 = group_word_count as int;
        match group_separator {
            Some(gsep) => if gsep == ch {
                let mut g = group_alist.pop().unwrap();
                g.word_count = group_word_count;
                group_alist.push(g);
                group_word_count = 0;
                group_alist.push(
                    Group { start: index1 as i32, word_count: 0, boundaries: Vec::new() },
                );
                proof {
                    let li = mid_view.len() - 1;
                    assert(group_alist@[group_alist@.len() - 1]@.boundaries =~= Seq::<
                        int,
                    >::empty());
                    assert(group_alist@[group_alist@.len() - 1]@ == GroupModel {
                        start: index1 as int,
                        word_count: 0,
                        boundaries: Seq::empty(),
                    });
                    assert(group_alist@[li]@ == GroupModel {
                        start: g1.start,
                        word_count: gwc1,
                        boundaries: g1.boundaries,
                    });
                    assert(groups_view(group_alist@) =~= mid_view.update(
                        li,
                        GroupModel { start: g1.start, word_count: gwc1, boundaries: g1.boundaries },
                    ).push(
                        GroupModel { start: index1 as int, word_count: 0, boundaries: Seq::empty() },
                    ));
                }
            },
            None => {},
        }

        last_char = Some(ch);
        proof {
            let st2 = scan_step(st_pre, t, sep, index1 as int);
            assert(st_pre.groups.update(st_pre.groups.len() - 1, g1).update(
                st_pre.groups.len() - 1,
                GroupModel { start: g1.start, word_count: gwc1, boundaries: g1.boundaries },
            ) =~= st_pre.groups.update(
                st_pre.groups.len() - 1,
                GroupModel { start: g1.start, word_count: gwc1, boundaries: g1.boundaries },
            ));
            assert(groups_view(group_alist@) == st2.groups);
            assert(group_word_count as int == st2.gwc);
        }
        index1 += 1;
        proof {
            assert(scan(t, sep, index1 as int) == scan_step(st_pre, t, sep, index1 as int - 1));
        }
    }

    // write the open word count into the last group
    let mut g = group_alist.pop().unwrap();
    g.word_count = group_word_count;
    group_alist.push(g);
    proof {
        assert(groups_view(group_alist@) =~= final_groups(t, sep));
    }
    group_alist
}

/// Generate the heatmap of `str`: one score per position, exactly
/// `heatmap_spec`, each within `max_heat` of zero.
#[verifier::loop_isolation(false)]
#[verifier::rlimit(100)]
pub fn get_heatmap_str(scores: &mut Vec<i32>, s: &str, group_separator: Option<char>)
    requires
        1 <= s@.len() <= MAX_STR_LEN,
    ensures
        final(scores)@.len() == s@.len(),
        int_view(final(scores)@) == heatmap_spec(s@, group_separator),
        forall|j: int|
            0 <= j < s@.len() ==> -max_heat(s@.len() as int) <= #[trigger] final(scores)@[j]
                <= max_heat(s@.len() as int),
{
    let ghost t = s@;
    let ghost sep = group_separator;
    let str_len: usize = s.unicode_len();
    let ghost len = str_len as int;

    let group_alist: Vec<Group> = build_groups(scores, s, group_separator);
    let ghost gviews = final_groups(t, sep);
    proof {
        lemma_final_groups_wf(t, sep);
    }

    let group_count: i32 = group_alist.len() as i32;
    let separator_count: i32 = group_count - 1;

    // ++++ slash group-count penalty
    if separator_count != 0 {
        inc_vec(scores, Some(group_count * -2), None, None);
    }
    proof {
        assert(forall|j: int|
            0 <= j < len ==> #[trigger] scores@[j] as int == base_score(t, gviews.len() as int, j));
        lemma_base_view(t, scores@, gviews.len() as int);
    }
    score_groups(scores, &group_alist, separator_count, str_len, Ghost(t), Ghost(sep));
}

/// Walk the groups from the last found to the first and add each group's span
/// score, word-boundary bonuses and word penalties.
#[verifier::loop_isolation(false)]
#[verifier::rlimit(100)]
fn score_groups(
    scores: &mut Vec<i32>,
    group_alist: &Vec<Group>,
    separator_count: i32,
    str_len: usize,
    Ghost(t): Ghost<Seq<char>>,
    Ghost(sep): Ghost<Option<char>>,
)
    requires
        str_len == t.len(),
        1 <= str_len <= MAX_STR_LEN,
        old(scores)@.len() == str_len,
        groups_view(group_alist@) == final_groups(t, sep),
        groups_wf(final_groups(t, sep), str_len as int, str_len as int),
        separator_count as int == group_alist@.len() - 1,
        int_view(old(scores)@) == Seq::new(
            t.len(),
            |i: int| base_score(t, group_alist@.len() as int, i),
        ),
        forall|j: int|
            0 <= j < str_len ==> -(83 + 2 * str_len) <= #[trigger] old(scores)@[j] as int <= 83 + 2
                * str_len,
    ensures
        final(scores)@.len() == str_len,
        int_view(final(scores)@) == heatmap_spec(t, sep),
        forall|j: int|
            0 <= j < str_len ==> -max_heat(str_len as int) <= #[trigger] final(scores)@[j]
                <= max_heat(str_len as int),
{
    let ghost len = str_len as int;
    let ghost gviews = final_groups(t, sep);
    proof {
        assert(gviews.take(gviews.len() as int) =~= gviews);
    }

    let mut index2: i32 = separator_count;
    let mut last_group_limit: Option<i32> = None;
    let mut basepath_found: bool = false;
    let mut gi: usize = group_alist.len();

    while gi > 0
        invariant
            0 <= gi <= group_alist@.len(),
            group_alist@.len() == gviews.len(),
            groups_view(group_alist@) == gviews,
            groups_wf(gviews, len, len),
            scores@.len() == str_len,
            index2 as int == gi - 1,
            last_group_limit == (if gi == gviews.len() {
                None::<i32>
            } else {
                Some((gviews[gi as int].start + 1) as i32)
            }),
            heatmap_spec(t, sep) == process_groups(
                gviews.take(gi as int),
                int_view(scores@),
                index2 as int,
                inc_end(last_group_limit, len),
                gviews.len() - 1,
                basepath_found,
            ),
            forall|j: int|
                0 <= j < len && j < inc_end(last_group_limit, len) ==> -(83 + 2 * len)
                    <= #[trigger] scores@[j] as int <= 83 + 2 * len,
            forall|j: int|
                inc_end(last_group_limit, len) <= j < len ==> -max_heat(len)
                    <= #[trigger] scores@[j] as int <= max_heat(len),
        decreases gi,
    {
        gi -= 1;
        let ghost pre_limit = inc_end(last_group_limit, len);
        let ghost g_model = gviews[gi as int];
        let ghost sc_pre = int_view(scores@);
        let group_start: i32 = group_alist[gi].start;
        let word_count: i32 = group_alist[gi].word_count;
        let words_length: usize = group_alist[gi].boundaries.len();
        let mut basepath_p: bool = false;
        let ghost bp_found_pre = basepath_found;

        if words_length != 0 && !basepath_found {
            basepath_found = true;
            basepath_p = true;
        }

        let num: i32 = if basepath_p {
            // ++++ basepath separator-count boosts
            let boosts: i32 = if separator_count > 1 {
                separator_count - 1
            } else {
                0
            };
            // ++++ basepath word count penalty
            35 + boosts - word_count
        } else {
            // ++++ non-basepath penalties
            if index2 == 0 {
                -3
            } else {
                -5 + (index2 - 1)
            }
        };
        proof {
            assert(num as int == group_num(g_model, index2 as int, gviews.len() - 1, basepath_p));
            assert(-(41 + len) <= num as int <= 41 + len);
        }

        inc_vec(scores, Some(num), Some(group_start + 1), last_group_limit);
        let ghost sc_inc = int_view(scores@);
        proof {
            assert(sc_inc =~= inc_range_spec(
                sc_pre,
                g_model.start + 1,
                pre_limit,
                num as int,
            ));
        }

        proof {
            assert(g_model.boundaries.take(words_length as int) =~= g_model.boundaries);
        }
        let mut word_index: i32 = if words_length == 0 {
            -1
        } else {
            (words_length - 1) as i32
        };
        let mut last_word: i32 = match last_group_limit {
            Some(l) => l,
            None => str_len as i32,
        };
        let mut bi: usize = words_length;

        while bi > 0
            invariant
                0 <= bi <= words_length,
                words_length == g_model.boundaries.len(),
                gi < group_alist@.len() == gviews.len(),
                groups_view(group_alist@) == gviews,
                gviews[gi as int] == g_model,
                groups_wf(gviews, len, len),
                scores@.len() == str_len,
                word_index as int == bi - 1,
                last_word as int == (if bi == words_length {
                    pre_limit
                } else {
                    g_model.boundaries[bi as int]
                }),
                apply_words(
                    g_model.boundaries.take(bi as int),
                    int_view(scores@),
                    last_word as int,
                    word_index as int,
                ) == apply_words(g_model.boundaries, sc_inc, pre_limit, words_length - 1),
                forall|j: int|
                    0 <= j < g_model.start + 1 ==> -(83 + 2 * len) <= #[trigger] scores@[j] as int
                        <= 83 + 2 * len,
                forall|j: int|
                    g_model.start + 1 <= j < last_word as int ==> -(83 + 2 * len + 41 + len)
                        <= #[trigger] scores@[j] as int <= 83 + 2 * len + 41 + len,
                forall|j: int|
                    last_word as int <= j < len ==> -max_heat(len) <= #[trigger] scores@[j] as int
                        <= max_heat(len),
            decreases bi,
        {
            bi -= 1;
            let word: i32 = group_alist[gi].boundaries[bi];
            let ghost w = word as int;
            let ghost sc_word = int_view(scores@);
            proof {
                assert(g_model.start < w < len);
                assert(w < last_word as int);
            }
            // ++++ beg word bonus
            scores[word as usize] += 85;

            let mut index3: i32 = word;
            let mut char_i: i32 = 0;
            while index3 < last_word
                invariant
                    w <= index3 as int <= last_word as int,
                    char_i as int == index3 as int - w,
                    scores@.len() == str_len,
                    last_word as int <= len,
                    forall|j: int|
                        0 <= j < len ==> #[trigger] scores@[j] as int == (if j == w {
                            sc_word[j] + 85
                        } else {
                            sc_word[j]
                        }) + (if w <= j < index3 as int {
                            -3 * (word_index as int) - (j - w)
                        } else {
                            0int
                        }),
                decreases last_word - index3,
            {
                scores[index3 as usize] += (-3 * word_index) -  // ++++ word order penalty
                    char_i;  // ++++ char order penalty
                char_i += 1;
                index3 += 1;
            }
            proof {
                assert(int_view(scores@) =~= word_step(
                    sc_word,
                    w,
                    last_word as int,
                    word_index as int,
                ));
                assert(g_model.boundaries.take(bi + 1).drop_last() =~= g_model.boundaries.take(
                    bi as int,
                ));
            }
            last_word = word;
            word_index -= 1;
        }

        proof {
            assert(g_model.boundaries.take(words_length as int) =~= g_model.boundaries);
            assert(g_model.boundaries.take(0) =~= Seq::<int>::empty());
            assert(int_view(scores@) =~= apply_group(
                g_model,
                sc_pre,
                pre_limit,
                index2 as int,
                gviews.len() - 1,
                basepath_p,
            ));
            assert(gviews.take(gi + 1).drop_last() =~= gviews.take(gi as int));
            assert(gviews.take(gi + 1).last() == g_model);
        }

        last_group_limit = Some(group_start + 1);
        index2 -= 1;
    }
    proof {
        assert(gviews.take(0) =~= Seq::<GroupModel>::empty());
        assert(int_view(scores@) == heatmap_spec(t, sep));
    }
}

} // verus!
