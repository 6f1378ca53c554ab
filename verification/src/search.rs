//! The memoized best-match search and the top-level scorer.

use vstd::prelude::*;
use vstd::string::StrSliceExecFns;
use std::collections::HashMap;
use crate::heatmap::{get_heatmap_str, heatmap_spec, int_view, lemma_heatmap_len, max_heat,
    MAX_STR_LEN};
use crate::index::{
    bigger_sublist, bigger_than, get_hash_for_string, index_entry, lemma_occurrences_wf,
    occurrences, records_at, StrInfo,
};

verus! {

broadcast use vstd::std_specs::hash::group_hash_axioms;

/// One match: the ascending target positions used, the cumulative score, and
/// the length of the trailing run of contiguous matched positions.
#[derive(Debug)]
pub struct Result {
    pub indices: Vec<i32>,
    pub score: i32,
    pub tail: i32,
}

/// The mathematical content of a `Result`.
#[verifier::ext_equal]
pub struct ResultModel {
    pub indices: Seq<int>,
    pub score: int,
    pub tail: int,
}

impl View for Result {
    type V = ResultModel;

    open spec fn view(&self) -> ResultModel {
        ResultModel {
            indices: self.indices@.map_values(|x: i32| x as int),
            score: self.score as int,
            tail: self.tail as int,
        }
    }
}

impl Clone for Result {
    /// An exact copy, field by field.
    #[verifier::loop_isolation(false)]
    fn clone(&self) -> (r: Self)
        ensures
            r.indices@ == self.indices@,
            r.score == self.score,
            r.tail == self.tail,
            r@ == self@,
    {
        let mut indices: Vec<i32> = Vec::new();
        let mut i: usize = 0;
        while i < self.indices.len()
            invariant
                0 <= i <= self.indices@.len(),
                indices@ == self.indices@.take(i as int),
            decreases self.indices@.len() - i,
        {
            indices.push(self.indices[i]);
            i += 1;
        }
        proof {
            assert(indices@ =~= self.indices@);
        }
        let r = Result { indices, score: self.score, tail: self.tail };
        proof {
            assert(r@ =~= self@);
        }
        r
    }
}

impl Result {
    /// Pack the three fields of a match.
    pub fn new(indices: Vec<i32>, score: i32, tail: i32) -> (r: Result)
        ensures
            r.indices == indices,
            r.score == score,
            r.tail == tail,
    {
        Result { indices, score, tail }
    }
}

/// A list of matches, read mathematically.
pub open spec fn results_view(s: Seq<Result>) -> Seq<ResultModel> {
    s.map_values(|r: Result| r@)
}

/// The positions an index holds for a key; none recorded reads as empty.
pub open spec fn positions_of(info: StrInfo, c: char) -> Seq<u32> {
    match info.spec_get(c) {
        None => Seq::empty(),
        Some(ps) => ps,
    }
}

/// The whole position index as a total map from characters to position lists.
pub open spec fn info_as_map(info: StrInfo) -> Map<char, Seq<u32>> {
    Map::new(|c: char| true, |c: char| positions_of(info, c))
}

/// The position index a target `t` gives rise to, as a total map.
pub open spec fn index_map(t: Seq<char>) -> Map<char, Seq<u32>> {
    Map::new(|c: char| true, |c: char| occurrences(t, c, t.len() as int))
}

/// Every position the index records can index a heatmap of length `hlen`.
pub open spec fn index_map_wf(m: Map<char, Seq<u32>>, hlen: int) -> bool {
    forall|c: char, k: int|
        0 <= k < m[c].len() ==> 0 <= #[trigger] m[c][k] < hlen
}

/// Every heatmap entry is within `max_heat` of zero.
pub open spec fn heat_bounded(heat: Seq<int>) -> bool {
    forall|j: int| 0 <= j < heat.len() ==> -max_heat(heat.len() as int) <= #[trigger] heat[j]
        <= max_heat(heat.len() as int)
}

/// The combined score of extending sub-result `e` by position `p`: the
/// heatmap value, and on a contiguous extension a capped tail bonus plus 60.
pub open spec fn step_score(e: ResultModel, heat: Seq<int>, p: int) -> int {
    if e.indices[0] - 1 == p {
        e.score + heat[p] + (if e.tail < 3 {
            e.tail
        } else {
            3int
        }) * 15 + 60
    } else {
        e.score + heat[p]
    }
}

/// The match that extends sub-result `e` by position `p`.
pub open spec fn step_result(e: ResultModel, heat: Seq<int>, p: int) -> ResultModel {
    ResultModel {
        indices: seq![p] + e.indices,
        score: step_score(e, heat, p),
        tail: if e.indices[0] - 1 == p {
            e.tail + 1
        } else {
            0int
        },
    }
}

/// The one-position matches of the last query character: one per candidate.
pub open spec fn terminal_results(cands: Seq<u32>, heat: Seq<int>) -> Seq<ResultModel> {
    cands.map_values(
        |p: u32| ResultModel { indices: seq![p as int], score: heat[p as int], tail: 0 },
    )
}

/// Fold the sub-results of one candidate position into the best found so far:
/// only a strictly better score replaces the kept match.
pub open spec fn scan_elems(
    sub: Seq<ResultModel>,
    heat: Seq<int>,
    p: int,
    best: int,
    acc: Seq<ResultModel>,
) -> (int, Seq<ResultModel>)
    decreases sub.len(),
{
    if sub.len() == 0 {
        (best, acc)
    } else {
        let e = sub[0];
        let temp = step_score(e, heat, p);
        if temp > best {
            scan_elems(sub.drop_first(), heat, p, temp, seq![step_result(e, heat, p)])
        } else {
            scan_elems(sub.drop_first(), heat, p, best, acc)
        }
    }
}

/// Fold all candidate positions of the current query character.
pub open spec fn scan_cands(
    m: Map<char, Seq<u32>>,
    heat: Seq<int>,
    q: Seq<char>,
    qi: int,
    cands: Seq<u32>,
    best: int,
    acc: Seq<ResultModel>,
) -> (int, Seq<ResultModel>)
    decreases q.len() - qi, 0int, cands.len(),
{
    if cands.len() == 0 || qi + 1 >= q.len() {
        (best, acc)
    } else {
        let p = cands[0] as int;
        let sub = search_spec(m, heat, Some(cands[0]), q, qi + 1);
        let folded = scan_elems(sub, heat, p, best, acc);
        scan_cands(m, heat, q, qi, cands.drop_first(), folded.0, folded.1)
    }
}

/// The best matches of `q[qi..]` against positions greater than `gt`: all
/// one-position matches for the last query character, and otherwise the
/// single best extension found across all candidate positions.
pub open spec fn search_spec(
    m: Map<char, Seq<u32>>,
    heat: Seq<int>,
    gt: Option<u32>,
    q: Seq<char>,
    qi: int,
) -> Seq<ResultModel>
    decreases q.len() - qi, 1int, 0int,
{
    let cands = bigger_than(m[q[qi]], gt);
    if qi >= q.len() - 1 {
        terminal_results(cands, heat)
    } else {
        scan_cands(m, heat, q, qi, cands, i32::MIN as int, Seq::empty()).1
    }
}

/// The key the match cache files a state under.
pub open spec fn cache_key(qi: int, gt: Option<u32>, qlen: int) -> int {
    qi + (match gt {
        None => 0int,
        Some(g) => g as int,
    }) * qlen
}

/// The threshold a cache key decodes to.
pub open spec fn decode_gt(k: int, qlen: int) -> Option<u32> {
    if k == 0 {
        None
    } else {
        Some((k / qlen) as u32)
    }
}

/// The states the search reaches: no threshold only at the first query
/// character, a threshold everywhere below.  Keys of distinct reachable
/// states never collide.
pub open spec fn state_ok(qi: int, gt: Option<u32>) -> bool {
    if qi == 0 {
        gt is None
    } else {
        gt is Some
    }
}

/// Every cache entry holds exactly the search's answer for its decoded state.
pub open spec fn cache_wf(
    cache: Map<u32, Vec<Result>>,
    m: Map<char, Seq<u32>>,
    heat: Seq<int>,
    q: Seq<char>,
) -> bool {
    forall|k: u32|
        #[trigger] cache.contains_key(k) ==> {
            let qlen = q.len() as int;
            &&& (k as int % qlen == 0 ==> k == 0)
            &&& results_view(cache[k]@) == search_spec(
                m,
                heat,
                decode_gt(k as int, qlen),
                q,
                k as int % qlen,
            )
        }
}

/// A reachable state's key decodes back to that state.
proof fn lemma_key_decode(qi: int, gt: Option<u32>, qlen: int)
    requires
        0 < qlen,
        0 <= qi < qlen,
        state_ok(qi, gt),
    ensures
        cache_key(qi, gt, qlen) % qlen == qi,
        decode_gt(cache_key(qi, gt, qlen), qlen) == gt,
        cache_key(qi, gt, qlen) % qlen == 0 ==> cache_key(qi, gt, qlen) == 0,
        0 <= cache_key(qi, gt, qlen),
{
    let k = cache_key(qi, gt, qlen);
    match gt {
        None => {
            assert(k == qi == 0);
            assert(k % qlen == 0) by (nonlinear_arith)
                requires
                    k == 0,
                    qlen > 0,
            ;
        },
        Some(g) => {
            vstd::arithmetic::div_mod::lemma_fundamental_div_mod_converse(
                k,
                qlen,
                g as int,
                qi,
            );
            assert(g as int >= 0);
            assert(k >= qi) by (nonlinear_arith)
                requires
                    k == qi + (g as int) * qlen,
                    g as int >= 0,
                    qlen > 0,
            ;
            if qi == 0 {
            } else {
                assert(k % qlen == qi && qi != 0);
            }
        },
    }
}

/// The per-step cap on a score's growth, and the cumulative cap.
pub open spec fn score_cap(hlen: int, d: int) -> int {
    d * (max_heat(hlen) + 105)
}

proof fn lemma_cap_monotone(hlen: int, d: int)
    by (nonlinear_arith)
    requires
        0 <= hlen,
        1 <= d,
    ensures
        score_cap(hlen, d) == score_cap(hlen, d - 1) + max_heat(hlen) + 105,
        score_cap(hlen, d - 1) >= 0,
        score_cap(hlen, d) >= max_heat(hlen) + 105,
{
}

proof fn lemma_cap_small(hlen: int, d: int)
    by (nonlinear_arith)
    requires
        0 <= hlen <= MAX_STR_LEN,
        0 <= d <= MAX_STR_LEN,
    ensures
        0 <= score_cap(hlen, d) <= 473000000,
{
}

/// What a filtered candidate list keeps: members of the list, bigger than the
/// bound.
proof fn lemma_bigger_than_wf(s: Seq<u32>, val: Option<u32>)
    ensures
        forall|k: int|
            0 <= k < bigger_than(s, val).len() ==> s.contains(#[trigger] bigger_than(s, val)[k])
                && (match val {
                Some(v) => bigger_than(s, val)[k] > v,
                None => true,
            }),
    decreases s.len(),
{
    if s.len() > 0 {
        lemma_bigger_than_wf(s.drop_last(), val);
        assert(forall|k: int|
            0 <= k < s.drop_last().len() ==> s.drop_last()[k] == s[k] && s.contains(#[trigger] s[k]));
        assert(s.contains(s.last()));
        assert(forall|k: int|
            0 <= k < s.drop_last().len() && s.drop_last().contains(#[trigger] s.drop_last()[k])
                ==> s.contains(s.drop_last()[k]));
        assert forall|k: int| 0 <= k < bigger_than(s, val).len() implies s.contains(
            #[trigger] bigger_than(s, val)[k],
        ) && (match val {
            Some(v) => bigger_than(s, val)[k] > v,
            None => true,
        }) by {
            let pre = bigger_than(s.drop_last(), val);
            if k < pre.len() {
                assert(bigger_than(s, val)[k] == pre[k]);
                assert(s.drop_last().contains(pre[k])) by {
                    let w = choose|w: int| 0 <= w < s.drop_last().len() && s.drop_last()[w] == pre[k];
                }
                let w = choose|w: int|
                    0 <= w < s.drop_last().len() && s.drop_last()[w] == pre[k];
                assert(s[w] == pre[k]);
            } else {
                assert(bigger_than(s, val)[k] == s.last());
            }
        }
    }
}

/// What holds of every result of the search at state `(qi, gt)`.
pub open spec fn result_wf(
    r: ResultModel,
    m: Map<char, Seq<u32>>,
    heat: Seq<int>,
    q: Seq<char>,
    qi: int,
    gt: Option<u32>,
) -> bool {
    &&& r.indices.len() == q.len() - qi
    &&& forall|j: int| 0 <= j < r.indices.len() ==> 0 <= #[trigger] r.indices[j] < heat.len()
    &&& forall|j: int|
        (0 <= j && j + 1 < r.indices.len()) ==> #[trigger] r.indices[j] < r.indices[j + 1]
    &&& (match gt {
        Some(g) => r.indices[0] > g as int,
        None => true,
    })
    &&& forall|j: int|
        #![trigger r.indices[j]]
        0 <= j < r.indices.len() ==> m[q[qi + j]].contains(r.indices[j] as u32)
    &&& 0 <= r.tail <= q.len() - qi
    &&& heat_bounded(heat) ==> -score_cap(heat.len() as int, q.len() - qi) <= r.score
        <= score_cap(heat.len() as int, q.len() - qi)
}

/// All results of a list are well formed for state `(qi, gt)`.
pub open spec fn results_wf(
    rs: Seq<ResultModel>,
    m: Map<char, Seq<u32>>,
    heat: Seq<int>,
    q: Seq<char>,
    qi: int,
    gt: Option<u32>,
) -> bool {
    forall|n: int| 0 <= n < rs.len() ==> result_wf(#[trigger] rs[n], m, heat, q, qi, gt)
}

/// Every result the search returns is well formed: indices ascending and in
/// range, one per remaining query character, each recorded under its query
/// character, above the threshold, with a bounded score and tail.
pub proof fn lemma_search_wf(
    m: Map<char, Seq<u32>>,
    heat: Seq<int>,
    gt: Option<u32>,
    q: Seq<char>,
    qi: int,
)
    requires
        index_map_wf(m, heat.len() as int),
        0 <= qi < q.len(),
    ensures
        results_wf(search_spec(m, heat, gt, q, qi), m, heat, q, qi, gt),
    decreases q.len() - qi, 1int, 0int,
{
    let cands = bigger_than(m[q[qi]], gt);
    lemma_bigger_than_wf(m[q[qi]], gt);
    if qi >= q.len() - 1 {
        let rs = terminal_results(cands, heat);
        assert forall|n: int| 0 <= n < rs.len() implies result_wf(
            #[trigger] rs[n],
            m,
            heat,
            q,
            qi,
            gt,
        ) by {
            let p = cands[n];
            assert(m[q[qi]].contains(p));
            let w = choose|w: int| 0 <= w < m[q[qi]].len() && m[q[qi]][w] == p;
            assert(0 <= p < heat.len());
            assert(rs[n].indices == seq![p as int]);
            assert(rs[n].indices[0] == p as int);
            if heat_bounded(heat) {
                assert(-max_heat(heat.len() as int) <= heat[p as int] <= max_heat(
                    heat.len() as int,
                ));
            }
            lemma_cap_monotone(heat.len() as int, 1);
            assert(q.len() - qi == 1);
        }
    } else {
        lemma_scan_cands_wf(m, heat, q, qi, cands, i32::MIN as int, Seq::empty(), gt);
    }
}

proof fn lemma_scan_cands_wf(
    m: Map<char, Seq<u32>>,
    heat: Seq<int>,
    q: Seq<char>,
    qi: int,
    cands: Seq<u32>,
    best: int,
    acc: Seq<ResultModel>,
    gt: Option<u32>,
)
    requires
        index_map_wf(m, heat.len() as int),
        0 <= qi < q.len() - 1,
        results_wf(acc, m, heat, q, qi, gt),
        forall|k: int|
            0 <= k < cands.len() ==> m[q[qi]].contains(#[trigger] cands[k]) && (match gt {
                Some(g) => cands[k] > g,
                None => true,
            }),
    ensures
        results_wf(scan_cands(m, heat, q, qi, cands, best, acc).1, m, heat, q, qi, gt),
    decreases q.len() - qi, 0int, cands.len(),
{
    if cands.len() == 0 || qi + 1 >= q.len() {
    } else {
        let p = cands[0] as int;
        let sub = search_spec(m, heat, Some(cands[0]), q, qi + 1);
        lemma_search_wf(m, heat, Some(cands[0]), q, qi + 1);
        let folded = scan_elems(sub, heat, p, best, acc);
        lemma_scan_elems_wf(sub, m, heat, q, qi, cands[0], best, acc, gt);
        assert(forall|k: int|
            0 <= k < cands.drop_first().len() ==> cands[k + 1] == #[trigger] cands.drop_first()[k]);
        lemma_scan_cands_wf(m, heat, q, qi, cands.drop_first(), folded.0, folded.1, gt);
    }
}

#[verifier::rlimit(100)]
proof fn lemma_scan_elems_wf(
    sub: Seq<ResultModel>,
    m: Map<char, Seq<u32>>,
    heat: Seq<int>,
    q: Seq<char>,
    qi: int,
    p: u32,
    best: int,
    acc: Seq<ResultModel>,
    gt: Option<u32>,
)
    requires
        index_map_wf(m, heat.len() as int),
        0 <= qi < q.len() - 1,
        results_wf(acc, m, heat, q, qi, gt),
        results_wf(sub, m, heat, q, qi + 1, Some(p)),
        m[q[qi]].contains(p),
        match gt {
            Some(g) => p > g,
            None => true,
        },
    ensures
        results_wf(scan_elems(sub, heat, p as int, best, acc).1, m, heat, q, qi, gt),
    decreases sub.len(),
{
    if sub.len() > 0 {
        let e = sub[0];
        assert(result_wf(e, m, heat, q, qi + 1, Some(p)));
        let temp = step_score(e, heat, p as int);
        let r = step_result(e, heat, p as int);
        let w = choose|w: int| 0 <= w < m[q[qi]].len() && m[q[qi]][w] == p;
        assert(0 <= p < heat.len());
        lemma_cap_monotone(heat.len() as int, q.len() - qi);
        assert(result_wf(r, m, heat, q, qi, gt)) by {
            assert(r.indices.len() == e.indices.len() + 1);
            assert(r.indices[0] == p as int);
            assert(forall|j: int|
                1 <= j < r.indices.len() ==> #[trigger] r.indices[j] == e.indices[j - 1]);
            assert(e.indices[0] > p as int);
            assert(forall|j: int|
                #![trigger e.indices[j - 1]]
                1 <= j < r.indices.len() ==> m[q[qi + j]].contains(e.indices[j - 1] as u32));
        }
        assert(results_wf(sub.drop_first(), m, heat, q, qi + 1, Some(p))) by {
            assert(forall|n: int|
                0 <= n < sub.drop_first().len() ==> #[trigger] sub.drop_first()[n] == sub[n + 1]);
        }
        if temp > best {
            lemma_scan_elems_wf(
                sub.drop_first(),
                m,
                heat,
                q,
                qi,
                p,
                temp,
                seq![r],
                gt,
            );
        } else {
            lemma_scan_elems_wf(sub.drop_first(), m, heat, q, qi, p, best, acc, gt);
        }
    }
}


/// Reading a list of matches after an append: the views, appended.
proof fn lemma_results_view_push(s: Seq<Result>, x: Result)
    ensures
        results_view(s.push(x)) == results_view(s).push(x@),
{
    assert forall|k: int| 0 <= k < s.len() + 1 implies results_view(s.push(x))[k] == results_view(
        s,
    ).push(x@)[k] by {
        if k < s.len() {
            assert(s.push(x)[k] == s[k]);
        } else {
            assert(s.push(x)[k] == x);
        }
    }
    assert(results_view(s.push(x)) =~= results_view(s).push(x@));
}

/// A fresh copy of a list of matches.
#[verifier::loop_isolation(false)]
fn copy_results(src: &Vec<Result>) -> (r: Vec<Result>)
    ensures
        results_view(r@) == results_view(src@),
{
    let mut r: Vec<Result> = Vec::new();
    let mut i: usize = 0;
    while i < src.len()
        invariant
            0 <= i <= src@.len(),
            results_view(r@) == results_view(src@.take(i as int)),
        decreases src@.len() - i,
    {
        let ghost r_pre = r@;
        r.push(src[i].clone());
        proof {
            lemma_results_view_push(r_pre, r@.last());
            assert(src@.take(i + 1) =~= src@.take(i as int).push(src@[i as int]));
            lemma_results_view_push(src@.take(i as int), src@[i as int]);
            assert(results_view(r@) =~= results_view(src@.take(i + 1)));
        }
        i += 1;
    }
    proof {
        assert(src@.take(src@.len() as int) =~= src@);
    }
    r
}

/// Recursively compute the best match of `query[q_index..]` against target
/// positions greater than `greater_than`, consulting and filling the
/// per-invocation match cache.
#[verifier::loop_isolation(false)]
#[verifier::rlimit(100)]
pub fn find_best_match(
    imatch: &mut Vec<Result>,
    str_info: &StrInfo,
    heatmap: &Vec<i32>,
    greater_than: Option<u32>,
    query: &str,
    query_length: i32,
    q_index: i32,
    match_cache: &mut HashMap<u32, Vec<Result>>,
)
    requires
        old(imatch)@.len() == 0,
        query_length as int == query@.len(),
        1 <= query@.len() <= MAX_STR_LEN,
        heatmap@.len() <= MAX_STR_LEN,
        0 <= q_index < query_length,
        state_ok(q_index as int, greater_than),
        match greater_than {
            Some(g) => (g as int) < heatmap@.len(),
            None => true,
        },
        index_map_wf(info_as_map(*str_info), heatmap@.len() as int),
        heat_bounded(int_view(heatmap@)),
        cache_wf(old(match_cache)@, info_as_map(*str_info), int_view(heatmap@), query@),
    ensures
        results_view(final(imatch)@) == search_spec(
            info_as_map(*str_info),
            int_view(heatmap@),
            greater_than,
            query@,
            q_index as int,
        ),
        cache_wf(final(match_cache)@, info_as_map(*str_info), int_view(heatmap@), query@),
    decreases query_length - q_index,
{
    let ghost m = info_as_map(*str_info);
    let ghost heat = int_view(heatmap@);
    let ghost q = query@;
    let ghost qlen = q.len() as int;
    let ghost qi = q_index as int;
    let ghost hlen = heatmap@.len() as int;

    let greater_num: u32 = match greater_than {
        Some(g) => g,
        None => 0,
    };
    proof {
        assert((greater_num as int) * (query_length as int) <= 8192 * 8192) by (nonlinear_arith)
            requires
                0 <= greater_num as int <= 8192,
                0 <= query_length as int <= 8192,
        ;
        lemma_key_decode(qi, greater_than, qlen);
    }
    let hash_key: u32 = q_index as u32 + greater_num * (query_length as u32);
    proof {
        assert(hash_key as int == cache_key(qi, greater_than, qlen));
    }

    let hash_value = match_cache.get(&hash_key);
    if hash_value.is_some() {
        let hv = hash_value.unwrap();
        imatch.clear();
        let mut vi: usize = 0;
        while vi < hv.len()
            invariant
                0 <= vi <= hv@.len(),
                results_view(imatch@) == results_view(hv@.take(vi as int)),
            decreases hv@.len() - vi,
        {
            let ghost im_pre = imatch@;
            imatch.push(hv[vi].clone());
            proof {
                lemma_results_view_push(im_pre, imatch@.last());
                assert(hv@.take(vi + 1) =~= hv@.take(vi as int).push(hv@[vi as int]));
                lemma_results_view_push(hv@.take(vi as int), hv@[vi as int]);
                assert(results_view(imatch@) =~= results_view(hv@.take(vi + 1)));
            }
            vi += 1;
        }
        proof {
            assert(hv@.take(hv@.len() as int) =~= hv@);
            assert(old(match_cache)@.contains_key(hash_key));
            assert(results_view(hv@) == search_spec(m, heat, greater_than, q, qi));
        }
    } else {
        let uchar: char = query.get_char(q_index as usize);
        let sorted_list = str_info.get(uchar);
        let mut indexes: Vec<u32> = Vec::new();
        bigger_sublist(&mut indexes, sorted_list, greater_than);
        let ghost cands = bigger_than(m[q[qi]], greater_than);
        proof {
            assert(m[q[qi]] == positions_of(*str_info, uchar));
            match sorted_list {
                None => {
                    assert(positions_of(*str_info, uchar) =~= Seq::<u32>::empty());
                },
                Some(sl) => {
                    assert(positions_of(*str_info, uchar) == sl@);
                },
            }
            assert(indexes@ =~= cands);
            lemma_bigger_than_wf(m[q[qi]], greater_than);
        }

        if q_index >= query_length - 1 {
            let ghost terminal = terminal_results(cands, heat);
            let mut ii: usize = 0;
            while ii < indexes.len()
                invariant
                    0 <= ii <= indexes@.len(),
                    results_view(imatch@) == terminal.take(ii as int),
                decreases indexes@.len() - ii,
            {
                let idx_u: u32 = indexes[ii];
                proof {
                    assert(m[q[qi]].contains(cands[ii as int]));
                    let w = choose|w: int|
                        0 <= w < m[q[qi]].len() && m[q[qi]][w] == cands[ii as int];
                    assert(0 <= idx_u < hlen);
                }
                let idx: i32 = idx_u as i32;
                let mut indices: Vec<i32> = Vec::new();
                indices.push(idx);
                imatch.push(Result::new(indices, heatmap[idx_u as usize], 0));
                proof {
                    assert(imatch@.last()@ =~= terminal[ii as int]);
                    assert(results_view(imatch@) =~= terminal.take(ii + 1));
                }
                ii += 1;
            }
            proof {
                assert(terminal.take(terminal.len() as int) =~= terminal);
            }
        } else {
            let mut best_score: i32 = i32::MIN;
            proof {
                assert(results_view(imatch@) =~= Seq::<ResultModel>::empty());
                assert(cands.skip(0) =~= cands);
            }
            let mut ci: usize = 0;
            while ci < indexes.len()
                invariant
                    0 <= ci <= indexes@.len(),
                    cache_wf(match_cache@, m, heat, q),
                    scan_cands(
                        m,
                        heat,
                        q,
                        qi,
                        cands.skip(ci as int),
                        best_score as int,
                        results_view(imatch@),
                    ) == scan_cands(m, heat, q, qi, cands, i32::MIN as int, Seq::empty()),
                    results_wf(results_view(imatch@), m, heat, q, qi, greater_than),
                decreases indexes@.len() - ci,
            {
                let idx_u: u32 = indexes[ci];
                proof {
                    assert(m[q[qi]].contains(cands[ci as int]));
                    let w = choose|w: int|
                        0 <= w < m[q[qi]].len() && m[q[qi]][w] == cands[ci as int];
                    assert(0 <= idx_u < hlen);
                }
                let idx: i32 = idx_u as i32;
                let mut elem_group: Vec<Result> = Vec::new();
                find_best_match(
                    &mut elem_group,
                    str_info,
                    heatmap,
                    Some(idx_u),
                    query,
                    query_length,
                    q_index + 1,
                    match_cache,
                );
                let ghost sub = search_spec(m, heat, Some(idx_u), q, qi + 1);
                let ghost entry_best = best_score as int;
                let ghost entry_acc = results_view(imatch@);
                proof {
                    lemma_search_wf(m, heat, Some(idx_u), q, qi + 1);
                    lemma_cap_monotone(hlen, qlen - qi);
                    lemma_cap_small(hlen, qlen - qi);
                    lemma_cap_small(hlen, qlen - qi - 1);
                    assert(sub.skip(0) =~= sub);
                }
                let mut ei: usize = 0;
                while ei < elem_group.len()
                    invariant
                        0 <= ei <= elem_group@.len(),
                        results_view(elem_group@) == sub,
                        scan_elems(
                            sub.skip(ei as int),
                            heat,
                            idx_u as int,
                            best_score as int,
                            results_view(imatch@),
                        ) == scan_elems(sub, heat, idx_u as int, entry_best, entry_acc),
                        results_wf(results_view(imatch@), m, heat, q, qi, greater_than),
                    decreases elem_group@.len() - ei,
                {
                    let elem = &elem_group[ei];
                    let ghost e = elem@;
                    proof {
                        assert(sub[ei as int] == e);
                        assert(result_wf(e, m, heat, q, qi + 1, Some(idx_u)));
                        assert(e.indices.len() > 0);
                        assert(-score_cap(hlen, qlen - qi - 1) <= e.score <= score_cap(
                            hlen,
                            qlen - qi - 1,
                        ));
                        assert(-max_heat(hlen) <= heat[idx_u as int] <= max_heat(hlen));
                        assert(heat[idx_u as int] == heatmap@[idx_u as int] as int);
                    }
                    let caar: i32 = elem.indices[0];
                    let cadr: i32 = elem.score;
                    let cddr: i32 = elem.tail;
                    let temp_score: i32 = if caar - 1 == idx {
                        cadr + heatmap[idx_u as usize] +
                            ((if cddr < 3 { cddr } else { 3 }) * 15) +  // boost contiguous matches
                            60
                    } else {
                        cadr + heatmap[idx_u as usize]
                    };
                    proof {
                        assert(caar as int == e.indices[0]);
                        assert(temp_score as int == step_score(e, heat, idx_u as int));
                    }
                    // only the best-scoring match is forwarded to the parent
                    if temp_score > best_score {
                        best_score = temp_score;
                        imatch.clear();
                        let cloned = elem.clone();
                        let mut indices: Vec<i32> = cloned.indices;
                        indices.insert(0, idx);
                        let mut tail: i32 = 0;
                        if caar - 1 == idx {
                            tail = cddr + 1;
                        }
                        imatch.push(Result::new(indices, temp_score, tail));
                        proof {
                            assert(imatch@[0]@.indices =~= seq![idx_u as int] + e.indices);
                            assert(imatch@[0]@ =~= step_result(e, heat, idx_u as int));
                            assert(results_view(imatch@) =~= seq![
                                step_result(e, heat, idx_u as int),
                            ]);
                            lemma_step_result_wf(e, m, heat, q, qi, idx_u, greater_than);
                        }
                    }
                    proof {
                        assert(sub.skip(ei as int).drop_first() =~= sub.skip(ei + 1));
                        assert(sub.skip(ei as int)[0] == sub[ei as int]);
                    }
                    ei += 1;
                }
                proof {
                    assert(sub.skip(sub.len() as int) =~= Seq::<ResultModel>::empty());
                    assert(cands.skip(ci as int).drop_first() =~= cands.skip(ci + 1));
                    assert(cands.skip(ci as int)[0] == cands[ci as int]);
                }
                ci += 1;
            }
            proof {
                assert(cands.skip(cands.len() as int) =~= Seq::<u32>::empty());
            }
        }

        // calls are cached to avoid exponential time complexity
        let copies = copy_results(imatch);
        let ghost cache_pre = match_cache@;
        match_cache.insert(hash_key, copies);
        proof {
            assert forall|k2: u32| #[trigger] match_cache@.contains_key(k2) implies {
                &&& (k2 as int % qlen == 0 ==> k2 == 0)
                &&& results_view(match_cache@[k2]@) == search_spec(
                    m,
                    heat,
                    decode_gt(k2 as int, qlen),
                    q,
                    k2 as int % qlen,
                )
            } by {
                if k2 == hash_key {
                    assert(results_view(match_cache@[k2]@) == search_spec(m, heat, greater_than, q, qi));
                } else {
                    assert(cache_pre.contains_key(k2));
                }
            }
        }
    }
}

/// A single step of the search fold keeps its result well formed.
proof fn lemma_step_result_wf(
    e: ResultModel,
    m: Map<char, Seq<u32>>,
    heat: Seq<int>,
    q: Seq<char>,
    qi: int,
    p: u32,
    gt: Option<u32>,
)
    requires
        index_map_wf(m, heat.len() as int),
        0 <= qi < q.len() - 1,
        result_wf(e, m, heat, q, qi + 1, Some(p)),
        m[q[qi]].contains(p),
        match gt {
            Some(g) => p > g,
            None => true,
        },
    ensures
        result_wf(step_result(e, heat, p as int), m, heat, q, qi, gt),
{
    let r = step_result(e, heat, p as int);
    let w = choose|w: int| 0 <= w < m[q[qi]].len() && m[q[qi]][w] == p;
    assert(0 <= p < heat.len());
    lemma_cap_monotone(heat.len() as int, q.len() - qi);
    assert(r.indices.len() == e.indices.len() + 1);
    assert(r.indices[0] == p as int);
    assert(forall|j: int| 1 <= j < r.indices.len() ==> #[trigger] r.indices[j] == e.indices[j - 1]);
    assert(e.indices[0] > p as int);
    assert(forall|j: int|
        #![trigger e.indices[j - 1]]
        1 <= j < r.indices.len() ==> m[q[qi + j]].contains(e.indices[j - 1] as u32));
}

/// What `score` returns: no match for an empty target or query, or for a
/// query that is no subsequence of the target; otherwise the search's best
/// match, with a flat 10000 bonus when a query of two to four characters
/// covered the whole target.
pub open spec fn score_spec(t: Seq<char>, q: Seq<char>) -> Option<ResultModel> {
    if t.len() == 0 || q.len() == 0 {
        None
    } else {
        let res = search_spec(index_map(t), heatmap_spec(t, None), None, q, 0);
        if res.len() == 0 {
            None
        } else {
            let r0 = res[0];
            if 1 < q.len() < 5 && r0.indices.len() == t.len() {
                Some(ResultModel { indices: r0.indices, score: r0.score + 10000, tail: r0.tail })
            } else {
                Some(r0)
            }
        }
    }
}

/// Return the best score matching `query` against `str`, with the positions
/// used: exactly `score_spec`, so two calls on the same pair return the same
/// match.  A successful match uses strictly ascending positions, one per
/// query character, each equal to its query character or folding to it.
#[verifier::loop_isolation(false)]
#[verifier::rlimit(100)]
pub fn score(s: &str, query: &str) -> (r: Option<Result>)
    requires
        s@.len() <= MAX_STR_LEN,
        query@.len() <= MAX_STR_LEN,
    ensures
        match r {
            None => score_spec(s@, query@) is None,
            Some(res) => score_spec(s@, query@) == Some(res@),
        },
        s@.len() == 0 || query@.len() == 0 ==> r is None,
        match r {
            Some(res) => {
                &&& res@.indices.len() == query@.len()
                &&& forall|j: int|
                    (0 <= j && j + 1 < res@.indices.len()) ==> #[trigger] res@.indices[j]
                        < res@.indices[j + 1]
                &&& forall|j: int|
                    0 <= j < res@.indices.len() ==> 0 <= #[trigger] res@.indices[j] < s@.len()
                        && records_at(s@, res@.indices[j], query@[j])
            },
            None => true,
        },
{
    if s.unicode_len() == 0 || query.unicode_len() == 0 {
        return None;
    }
    let ghost t = s@;
    let ghost q = query@;
    let mut str_info = StrInfo::new();
    get_hash_for_string(&mut str_info, s);

    let mut heatmap: Vec<i32> = Vec::new();
    get_heatmap_str(&mut heatmap, s, None);

    let ghost m = index_map(t);
    let ghost heat = int_view(heatmap@);
    proof {
        assert forall|c: char| positions_of(str_info, c) == occurrences(
            t,
            c,
            t.len() as int,
        ) by {
            assert(str_info.spec_get(c) == index_entry(t, c));
            if occurrences(t, c, t.len() as int).len() == 0 {
                assert(positions_of(str_info, c) =~= occurrences(t, c, t.len() as int));
            }
        }
        assert(info_as_map(str_info) =~= m);
        assert forall|c: char, k: int| 0 <= k < m[c].len() implies 0 <= #[trigger] m[c][k]
            < heat.len() by {
            lemma_occurrences_wf(t, c, t.len() as int);
        }
        assert(heat_bounded(heat));
    }

    let query_length: i32 = query.unicode_len() as i32;
    let full_match_boost: bool = (1 < query_length) && (query_length < 5);
    let mut match_cache: HashMap<u32, Vec<Result>> = HashMap::new();
    let mut optimal_match: Vec<Result> = Vec::new();
    find_best_match(
        &mut optimal_match,
        &str_info,
        &heatmap,
        None,
        query,
        query_length,
        0,
        &mut match_cache,
    );
    let ghost res = search_spec(m, heat, None, q, 0);
    proof {
        assert(results_view(optimal_match@) == res);
        lemma_search_wf(m, heat, None, q, 0);
    }

    if optimal_match.is_empty() {
        return None;
    }
    proof {
        assert(optimal_match@[0]@ == res[0]);
        assert(result_wf(res[0], m, heat, q, 0, None));
        lemma_cap_small(heat.len() as int, q.len() as int);
        assert forall|j: int| 0 <= j < res[0].indices.len() implies 0 <= #[trigger] res[0].indices[j] < t.len() && records_at(t, res[0].indices[j], q[j]) by {
            assert(m[q[j]].contains(res[0].indices[j] as u32));
            let w = choose|w: int|
                0 <= w < m[q[j]].len() && m[q[j]][w] == res[0].indices[j] as u32;
            lemma_occurrences_wf(t, q[j], t.len() as int);
        }
    }

    let mut result_1: Result = optimal_match[0].clone();
    let caar: usize = result_1.indices.len();

    if full_match_boost && caar == s.unicode_len() {
        result_1.score += 10000;
        proof {
            assert(result_1@ =~= ResultModel {
                indices: res[0].indices,
                score: res[0].score + 10000,
                tail: res[0].tail,
            });
        }
    }

    Some(result_1)
}

/// For any successful match, the positions used are strictly ascending, one
/// per query character, and each matches its query character exactly or by
/// lowercase folding.
pub proof fn lemma_score_match_wf(t: Seq<char>, q: Seq<char>, r: ResultModel)
    requires
        t.len() <= MAX_STR_LEN,
        score_spec(t, q) == Some(r),
    ensures
        r.indices.len() == q.len(),
        forall|j: int|
            (0 <= j && j + 1 < r.indices.len()) ==> #[trigger] r.indices[j] < r.indices[j + 1],
        forall|j: int|
            0 <= j < r.indices.len() ==> 0 <= #[trigger] r.indices[j] < t.len() && records_at(
                t,
                r.indices[j],
                q[j],
            ),
{
    let m = index_map(t);
    let heat = heatmap_spec(t, None);
    lemma_heatmap_len(t, None);
    assert forall|c: char, k: int| 0 <= k < m[c].len() implies 0 <= #[trigger] m[c][k]
        < heat.len() by {
        lemma_occurrences_wf(t, c, t.len() as int);
    }
    lemma_search_wf(m, heat, None, q, 0);
    let res = search_spec(m, heat, None, q, 0);
    assert(result_wf(res[0], m, heat, q, 0, None));
    assert forall|j: int| 0 <= j < r.indices.len() implies 0 <= #[trigger] r.indices[j] < t.len()
        && records_at(t, r.indices[j], q[j]) by {
        assert(m[q[j]].contains(res[0].indices[j] as u32));
        let w = choose|w: int| 0 <= w < m[q[j]].len() && m[q[j]][w] == res[0].indices[j] as u32;
        lemma_occurrences_wf(t, q[j], t.len() as int);
    }
}

} // verus!
