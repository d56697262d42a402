use vstd::prelude::*;
use vstd::multiset::Multiset;
use crate::entry::{
    enrich, entry_matches, raw_name, raw_ok, raw_visible, DirectoryEntry, Error, RawEntry,
};
use crate::listing::{dirs_of, files_of, is_visible_raw, partition_entries, FilesResult};
use crate::text::{
    contains_substring, has_substring, lemma_lex_le_total, lemma_lex_le_trans, lex_le,
    lex_le_exec, lower_of, matches_at, matches_at_exec, str_eq, to_lower,
};

verus! {

broadcast use vstd::seq_lib::group_to_multiset_ensures;

/// How deep below the search root the traversal may go.
pub const DEPTH_LIMIT: u64 = 10;

/// How many candidates are retained from the traversal.
pub const RESULT_CAP: usize = 100;

/// One entry met during the traversal of a subtree: what the filesystem
/// reported for it, and how many directory levels it lies below the root.
pub struct SearchCandidate {
    pub entry: RawEntry,
    pub depth: u64,
}

/// The similarity of an already-lowercased name `ln` to the lowercased query
/// `lq`: an equal name scores highest, a name the query is a prefix of comes
/// next, and any other name scores lowest.
pub open spec fn sim_score_l(ln: Seq<char>, lq: Seq<char>) -> int {
    if ln == lq {
        2
    } else if matches_at(ln, lq, 0) {
        1
    } else {
        0
    }
}

/// The similarity of a raw name to the lowercased query.
pub open spec fn sim_score(name: Seq<char>, lq: Seq<char>) -> int {
    sim_score_l(lower_of(name), lq)
}

/// Ranking order: higher similarity first, ties broken by lexicographic path
/// order, so that the ranking is deterministic.
pub open spec fn rank_le(lq: Seq<char>, a: SearchCandidate, b: SearchCandidate) -> bool {
    let sa = sim_score(raw_name(a.entry), lq);
    let sb = sim_score(raw_name(b.entry), lq);
    ||| sa > sb
    ||| (sa == sb && lex_le(a.entry.path@, b.entry.path@))
}

/// The sequence is ordered by rank: most similar first.
pub open spec fn sorted_ranked(lq: Seq<char>, s: Seq<SearchCandidate>) -> bool {
    forall|i: int, j: int| 0 <= i < j < s.len() ==> rank_le(lq, s[i], s[j])
}

/// Any two candidates are ranked one way or the other.
proof fn lemma_rank_total(lq: Seq<char>, a: SearchCandidate, b: SearchCandidate)
    ensures
        rank_le(lq, a, b) || rank_le(lq, b, a),
{
    lemma_lex_le_total(a.entry.path@, b.entry.path@);
}

/// The ranking order is transitive.
proof fn lemma_rank_trans(lq: Seq<char>, a: SearchCandidate, b: SearchCandidate, c: SearchCandidate)
    requires
        rank_le(lq, a, b),
        rank_le(lq, b, c),
    ensures
        rank_le(lq, a, c),
{
    if sim_score(raw_name(a.entry), lq) == sim_score(raw_name(c.entry), lq) {
        lemma_lex_le_trans(a.entry.path@, b.entry.path@, c.entry.path@);
    }
}

/// The similarity of the lowered name `ln` to the lowered query `lq`.
fn score_exec(ln: &str, lq: &str) -> (s: u8)
    ensures
        s as int == sim_score_l(ln@, lq@),
{
    if str_eq(ln, lq) {
        2
    } else {
        let lnlen = ln.unicode_len();
        let lqlen = lq.unicode_len();
        if lqlen <= lnlen && matches_at_exec(ln, lq, 0) {
            1
        } else {
            0
        }
    }
}

/// Whether `a` ranks at or before `b` for the lowered query `lq`.
fn rank_le_exec(lq: &str, a: &SearchCandidate, b: &SearchCandidate) -> (r: bool)
    requires
        a.entry.name is Some,
        b.entry.name is Some,
    ensures
        r == rank_le(lq@, *a, *b),
{
    // the two arms below cannot be reached: both names are decodable
    let an: &String = match &a.entry.name {
        Some(n) => n,
        None => {
            return true;
        },
    };
    let bn: &String = match &b.entry.name {
        Some(n) => n,
        None => {
            return true;
        },
    };
    let la = to_lower(an.as_str());
    let lb = to_lower(bn.as_str());
    let sa = score_exec(la.as_str(), lq);
    let sb = score_exec(lb.as_str(), lq);
    if sa > sb {
        true
    } else if sa < sb {
        false
    } else {
        lex_le_exec(a.entry.path.as_str(), b.entry.path.as_str())
    }
}

/// A candidate is returned when its name is decodable and not hidden, it lies
/// within the depth limit, and its lowercased name holds the lowercased query
/// as a substring.
pub open spec fn eligible(c: SearchCandidate, lq: Seq<char>) -> bool {
    &&& raw_visible(c.entry)
    &&& c.depth <= DEPTH_LIMIT
    &&& has_substring(lower_of(raw_name(c.entry)), lq)
}

/// The eligible candidates of `s`, in traversal order.
pub open spec fn eligible_of(s: Seq<SearchCandidate>, lq: Seq<char>) -> Seq<SearchCandidate>
    decreases s.len(),
{
    if s.len() == 0 {
        Seq::empty()
    } else {
        let rest = eligible_of(s.drop_last(), lq);
        if eligible(s.last(), lq) {
            rest.push(s.last())
        } else {
            rest
        }
    }
}

/// The candidates retained from the traversal: the eligible ones in traversal
/// order, cut off at the cap.
pub open spec fn capped_of(s: Seq<SearchCandidate>, lq: Seq<char>) -> Seq<SearchCandidate> {
    if eligible_of(s, lq).len() <= RESULT_CAP {
        eligible_of(s, lq)
    } else {
        eligible_of(s, lq).take(RESULT_CAP as int)
    }
}

/// Whether the candidate is kept by the search filter.
fn is_eligible_exec(c: &SearchCandidate, lq: &str) -> (b: bool)
    ensures
        b == eligible(*c, lq@),
{
    if !is_visible_raw(&c.entry) {
        return false;
    }
    if c.depth > DEPTH_LIMIT {
        return false;
    }
    let n: &String = match &c.entry.name {
        Some(n) => n,
        None => {
            return false;
        },
    };
    let ln = to_lower(n.as_str());
    contains_substring(ln.as_str(), lq)
}

/// Order the candidates by rank, most similar first, ties by path; the result
/// holds exactly the input candidates.
fn sort_candidates(lq: &str, input: Vec<SearchCandidate>) -> (out: Vec<SearchCandidate>)
    requires
        forall|k: int| 0 <= k < input@.len() ==> (#[trigger] input@[k]).entry.name is Some,
    ensures
        out@.to_multiset() == input@.to_multiset(),
        sorted_ranked(lq@, out@),
        out@.len() == input@.len(),
        forall|k: int| 0 <= k < out@.len() ==> (#[trigger] out@[k]).entry.name is Some,
{
    let mut rest = input;
    let mut out: Vec<SearchCandidate> = Vec::new();
    while rest.len() > 0
        invariant
            out@.to_multiset().add(rest@.to_multiset()) == input@.to_multiset(),
            out@.len() + rest@.len() == input@.len(),
            sorted_ranked(lq@, out@),
            forall|i: int, j: int|
                0 <= i < out@.len() && 0 <= j < rest@.len() ==> #[trigger] rank_le(
                    lq@,
                    out@[i],
                    rest@[j],
                ),
            forall|k: int| 0 <= k < rest@.len() ==> (#[trigger] rest@[k]).entry.name is Some,
            forall|k: int| 0 <= k < out@.len() ==> (#[trigger] out@[k]).entry.name is Some,
        decreases rest@.len(),
    {
        let mut m: usize = 0;
        let mut k: usize = 1;
        proof {
            lemma_rank_total(lq@, rest@[0], rest@[0]);
        }
        while k < rest.len()
            invariant
                rest@.len() > 0,
                m < k,
                k <= rest@.len(),
                forall|t: int| 0 <= t < k ==> rank_le(lq@, rest@[m as int], #[trigger] rest@[t]),
                forall|t: int| 0 <= t < rest@.len() ==> (#[trigger] rest@[t]).entry.name is Some,
            decreases rest@.len() - k,
        {
            if !rank_le_exec(lq, &rest[m], &rest[k]) {
                proof {
                    lemma_rank_total(lq@, rest@[m as int], rest@[k as int]);
                    lemma_rank_total(lq@, rest@[k as int], rest@[k as int]);
                    assert forall|t: int| 0 <= t < k implies rank_le(
                        lq@,
                        rest@[k as int],
                        #[trigger] rest@[t],
                    ) by {
                        lemma_rank_trans(lq@, rest@[k as int], rest@[m as int], rest@[t]);
                    }
                }
                m = k;
            }
            k += 1;
        }
        let ghost old_rest = rest@;
        let ghost old_out = out@;
        let e = rest.remove(m);
        proof {
            assert(old_rest.contains(old_rest[m as int]));
            assert(old_rest.to_multiset().count(e) > 0);
            assert(out@.to_multiset().insert(e).add(old_rest.to_multiset().remove(e))
                =~= out@.to_multiset().add(old_rest.to_multiset()));
            assert forall|i: int, j: int|
                0 <= i < old_out.push(e).len() && 0 <= j < rest@.len() implies #[trigger] rank_le(
                lq@,
                old_out.push(e)[i],
                rest@[j],
            ) by {
                let jj: int = if j < m { j } else { j + 1 };
                assert(rest@[j] == old_rest[jj]);
            }
        }
        out.push(e);
    }
    proof {
        assert(rest@.to_multiset() =~= Multiset::<SearchCandidate>::empty());
        assert(out@.to_multiset().add(rest@.to_multiset()) =~= out@.to_multiset());
        assert(out@.to_multiset().len() == input@.to_multiset().len());
    }
    out
}

/// Some candidate's name is not decodable.
pub open spec fn any_undecodable_cand(s: Seq<SearchCandidate>) -> bool {
    exists|i: int| 0 <= i < s.len() && s[i].entry.name is None
}

/// The metadata of every candidate can be rendered in full.
pub open spec fn all_ok_cand(s: Seq<SearchCandidate>) -> bool {
    forall|i: int| 0 <= i < s.len() ==> raw_ok((#[trigger] s[i]).entry)
}

/// The records `es` are, one for one and in order, what the enricher derives
/// from the candidates `cs`.
pub open spec fn entries_match_cand(es: Seq<DirectoryEntry>, cs: Seq<SearchCandidate>) -> bool {
    es.len() == cs.len() && forall|i: int|
        0 <= i < cs.len() ==> entry_matches(es[i], (#[trigger] cs[i]).entry)
}

/// The candidates that are directories, in order.
pub open spec fn cand_dirs(s: Seq<SearchCandidate>) -> Seq<SearchCandidate>
    decreases s.len(),
{
    if s.len() == 0 {
        Seq::empty()
    } else {
        let rest = cand_dirs(s.drop_last());
        if s.last().entry.is_dir {
            rest.push(s.last())
        } else {
            rest
        }
    }
}

/// The candidates that are plain files, in order.
pub open spec fn cand_files(s: Seq<SearchCandidate>) -> Seq<SearchCandidate>
    decreases s.len(),
{
    if s.len() == 0 {
        Seq::empty()
    } else {
        let rest = cand_files(s.drop_last());
        if !s.last().entry.is_dir {
            rest.push(s.last())
        } else {
            rest
        }
    }
}

/// `ranked` is an arrangement of exactly the candidates `chosen`, ordered by
/// rank, and the result `fr` is `ranked` enriched and split into the two
/// buckets with that order kept.
pub open spec fn is_ranking(
    fr: FilesResult,
    chosen: Seq<SearchCandidate>,
    lq: Seq<char>,
    ranked: Seq<SearchCandidate>,
) -> bool {
    &&& ranked.to_multiset() == chosen.to_multiset()
    &&& sorted_ranked(lq, ranked)
    &&& entries_match_cand(fr.directories@, cand_dirs(ranked))
    &&& entries_match_cand(fr.files@, cand_files(ranked))
}

/// The result `fr` presents exactly the retained candidates `chosen`: some
/// rank-ordered arrangement of them, enriched, split into the two buckets
/// with the ranked order kept.
pub open spec fn search_matches(fr: FilesResult, chosen: Seq<SearchCandidate>, lq: Seq<char>) -> bool {
    exists|ranked: Seq<SearchCandidate>| #[trigger] is_ranking(fr, chosen, lq, ranked)
}

/// Whether every candidate's metadata renders is the same for any two
/// arrangements of the same candidates.
proof fn lemma_all_ok_transfer(a: Seq<SearchCandidate>, b: Seq<SearchCandidate>)
    requires
        a.to_multiset() == b.to_multiset(),
    ensures
        all_ok_cand(a) == all_ok_cand(b),
{
    if !all_ok_cand(a) {
        let i = choose|i: int| 0 <= i < a.len() && !raw_ok((#[trigger] a[i]).entry);
        assert(a.contains(a[i]));
        assert(b.to_multiset().count(a[i]) > 0);
        assert(b.contains(a[i]));
        let w = choose|w: int| 0 <= w < b.len() && b[w] == a[i];
        assert(!all_ok_cand(b));
    }
    if !all_ok_cand(b) {
        let i = choose|i: int| 0 <= i < b.len() && !raw_ok((#[trigger] b[i]).entry);
        assert(b.contains(b[i]));
        assert(a.to_multiset().count(b[i]) > 0);
        assert(a.contains(b[i]));
        let w = choose|w: int| 0 <= w < a.len() && a[w] == b[i];
        assert(!all_ok_cand(a));
    }
}

/// Splitting aligned sequences keeps them aligned, as for the listing.
proof fn lemma_partition_aligns_cand(es: Seq<DirectoryEntry>, cs: Seq<SearchCandidate>)
    requires
        entries_match_cand(es, cs),
    ensures
        entries_match_cand(dirs_of(es), cand_dirs(cs)),
        entries_match_cand(files_of(es), cand_files(cs)),
    decreases cs.len(),
{
    if cs.len() == 0 {
    } else {
        assert(entries_match_cand(es.drop_last(), cs.drop_last()));
        lemma_partition_aligns_cand(es.drop_last(), cs.drop_last());
        assert(entry_matches(es.last(), cs.last().entry));
    }
}

/// The search engine: filter the candidates met by a depth-bounded traversal
/// down to the ones whose lowercased name holds the lowercased query, keep at
/// most the cap of them in traversal order, rank them most-similar first with
/// ties broken by path, enrich each, and split the records into directories
/// and files with the ranked order kept. An undecodable name anywhere rejects
/// the whole call; a timestamp that cannot be rendered on a retained
/// candidate rejects the whole call with an IO error.
pub fn search_directory(query: &str, candidates: Vec<SearchCandidate>) -> (r: Result<
    FilesResult,
    Error,
>)
    ensures
        any_undecodable_cand(candidates@) ==> r == Err::<FilesResult, Error>(
            Error::UndecodableName,
        ),
        !any_undecodable_cand(candidates@) ==> ({
            let lq = lower_of(query@);
            let chosen = capped_of(candidates@, lq);
            &&& (r is Ok <==> all_ok_cand(chosen))
            &&& (r matches Err(e) ==> e == Error::Io)
            &&& (r matches Ok(fr) ==> search_matches(fr, chosen, lq) && fr.directories@.len()
                + fr.files@.len() <= RESULT_CAP)
        }),
{
    let ghost orig = candidates@;
    let n = candidates.len();
    let mut i: usize = 0;
    while i < n
        invariant
            n == candidates@.len(),
            orig == candidates@,
            i <= n,
            forall|k: int| 0 <= k < i ==> (#[trigger] candidates@[k]).entry.name is Some,
        decreases n - i,
    {
        if candidates[i].entry.name.is_none() {
            return Err(Error::UndecodableName);
        }
        i += 1;
    }
    let lq = to_lower(query);
    let mut rest = candidates;
    let mut chosen: Vec<SearchCandidate> = Vec::new();
    let mut j: usize = 0;
    proof {
        assert(orig.skip(0) =~= orig);
        assert(orig.take(0) =~= Seq::<SearchCandidate>::empty());
    }
    while rest.len() > 0
        invariant
            lq@ == lower_of(query@),
            n == orig.len(),
            j + rest@.len() == n,
            rest@ == orig.skip(j as int),
            forall|k: int| 0 <= k < n ==> (#[trigger] orig[k]).entry.name is Some,
            chosen@ == capped_of(orig.take(j as int), lq@),
            chosen@.len() <= RESULT_CAP,
            forall|k: int| 0 <= k < chosen@.len() ==> (#[trigger] chosen@[k]).entry.name is Some,
        decreases rest@.len(),
    {
        let c = rest.remove(0);
        proof {
            assert(c == orig[j as int]);
            assert(orig.skip(j as int).remove(0) =~= orig.skip(j + 1));
            assert(orig.take(j + 1).drop_last() =~= orig.take(j as int));
            assert(orig.take(j + 1).last() == orig[j as int]);
        }
        let ghost e_before = eligible_of(orig.take(j as int), lq@);
        let ghost e_after = eligible_of(orig.take(j + 1), lq@);
        if is_eligible_exec(&c, lq.as_str()) {
            if chosen.len() < RESULT_CAP {
                chosen.push(c);
                proof {
                    assert(e_after == e_before.push(orig[j as int]));
                    assert(e_before.len() <= RESULT_CAP);
                    assert(chosen@ == capped_of(orig.take(j + 1), lq@));
                }
            } else {
                proof {
                    assert(e_after == e_before.push(orig[j as int]));
                    assert(e_before.len() >= RESULT_CAP);
                    assert(e_after.take(RESULT_CAP as int) =~= e_before.take(RESULT_CAP as int));
                    if e_before.len() == RESULT_CAP {
                        assert(e_before.take(RESULT_CAP as int) =~= e_before);
                    }
                    assert(chosen@ == capped_of(orig.take(j + 1), lq@));
                }
            }
        } else {
            proof {
                assert(e_after == e_before);
            }
        }
        j += 1;
    }
    proof {
        assert(orig.take(n as int) =~= orig);
    }
    let ghost chosen_seq = chosen@;
    let sorted = sort_candidates(lq.as_str(), chosen);
    proof {
        lemma_all_ok_transfer(sorted@, chosen_seq);
    }
    let mut out: Vec<DirectoryEntry> = Vec::new();
    let mut k: usize = 0;
    proof {
        assert(sorted@.take(0) =~= Seq::<SearchCandidate>::empty());
    }
    while k < sorted.len()
        invariant
            k <= sorted@.len(),
            orig == candidates@,
            forall|t: int| 0 <= t < orig.len() ==> (#[trigger] orig[t]).entry.name is Some,
            sorted@.to_multiset() == chosen_seq.to_multiset(),
            sorted@.len() == chosen_seq.len() <= RESULT_CAP,
            sorted_ranked(lq@, sorted@),
            lq@ == lower_of(query@),
            chosen_seq == capped_of(orig, lq@),
            forall|t: int| 0 <= t < sorted@.len() ==> (#[trigger] sorted@[t]).entry.name is Some,
            all_ok_cand(sorted@.take(k as int)),
            entries_match_cand(out@, sorted@.take(k as int)),
        decreases sorted@.len() - k,
    {
        proof {
            assert(sorted@.take(k + 1).drop_last() =~= sorted@.take(k as int));
            assert(sorted@.take(k + 1).last() == sorted@[k as int]);
        }
        match enrich(&sorted[k].entry) {
            Ok(e) => {
                out.push(e);
            },
            Err(_) => {
                proof {
                    assert(sorted@.contains(sorted@[k as int]));
                    assert(!all_ok_cand(sorted@));
                    lemma_all_ok_transfer(sorted@, chosen_seq);
                }
                return Err(Error::Io);
            },
        }
        k += 1;
    }
    proof {
        assert(sorted@.take(sorted@.len() as int) =~= sorted@);
    }
    let fr = partition_entries(out);
    proof {
        lemma_partition_aligns_cand(out@, sorted@);
        crate::listing::lemma_partition_complete(out@);
        assert(is_ranking(fr, chosen_seq, lq@, sorted@));
    }
    Ok(fr)
}

/// Every retained candidate was eligible and came from the traversal.
proof fn lemma_eligible_sub(s: Seq<SearchCandidate>, lq: Seq<char>)
    ensures
        forall|i: int|
            0 <= i < eligible_of(s, lq).len() ==> eligible(#[trigger] eligible_of(s, lq)[i], lq)
                && s.contains(eligible_of(s, lq)[i]),
    decreases s.len(),
{
    if s.len() == 0 {
    } else {
        lemma_eligible_sub(s.drop_last(), lq);
        let d = eligible_of(s.drop_last(), lq);
        assert forall|i: int|
            0 <= i < eligible_of(s, lq).len() implies eligible(
            #[trigger] eligible_of(s, lq)[i],
            lq,
        ) && s.contains(eligible_of(s, lq)[i]) by {
            if i < d.len() {
                assert(eligible_of(s, lq)[i] == d[i]);
                let w = choose|w: int| 0 <= w < s.drop_last().len() && s.drop_last()[w] == d[i];
                assert(s[w] == d[i]);
            } else {
                assert(eligible_of(s, lq)[i] == s.last());
                assert(s[s.len() - 1] == s.last());
            }
        }
    }
}

/// Every element of a bucket filter is an element of its input.
proof fn lemma_cand_split_sub(s: Seq<SearchCandidate>)
    ensures
        forall|i: int| 0 <= i < cand_dirs(s).len() ==> s.contains(#[trigger] cand_dirs(s)[i]),
        forall|i: int| 0 <= i < cand_files(s).len() ==> s.contains(#[trigger] cand_files(s)[i]),
        cand_dirs(s).len() + cand_files(s).len() == s.len(),
    decreases s.len(),
{
    if s.len() == 0 {
    } else {
        lemma_cand_split_sub(s.drop_last());
        assert forall|i: int|
            0 <= i < cand_dirs(s).len() implies s.contains(#[trigger] cand_dirs(s)[i]) by {
            let d = cand_dirs(s.drop_last());
            if i < d.len() {
                assert(cand_dirs(s)[i] == d[i]);
                let w = choose|w: int| 0 <= w < s.drop_last().len() && s.drop_last()[w] == d[i];
                assert(s[w] == d[i]);
            } else {
                assert(cand_dirs(s)[i] == s.last());
                assert(s[s.len() - 1] == s.last());
            }
        }
        assert forall|i: int|
            0 <= i < cand_files(s).len() implies s.contains(#[trigger] cand_files(s)[i]) by {
            let d = cand_files(s.drop_last());
            if i < d.len() {
                assert(cand_files(s)[i] == d[i]);
                let w = choose|w: int| 0 <= w < s.drop_last().len() && s.drop_last()[w] == d[i];
                assert(s[w] == d[i]);
            } else {
                assert(cand_files(s)[i] == s.last());
                assert(s[s.len() - 1] == s.last());
            }
        }
    }
}

/// The record `e` stems from one of the given candidates: one that lay
/// within the depth limit and was eligible for the query.
pub open spec fn stems_from(e: DirectoryEntry, candidates: Seq<SearchCandidate>, lq: Seq<char>) -> bool {
    exists|c: SearchCandidate| #[trigger]
        candidates.contains(c) && c.depth <= DEPTH_LIMIT && eligible(c, lq) && entry_matches(
            e,
            c.entry,
        )
}

/// Law: a search result never holds more records than the cap, and every
/// record in it stems from a traversal candidate that lay within the depth
/// limit and matched the query.
pub proof fn lemma_search_bounds(fr: FilesResult, candidates: Seq<SearchCandidate>, lq: Seq<char>)
    requires
        search_matches(fr, capped_of(candidates, lq), lq),
    ensures
        fr.directories@.len() + fr.files@.len() <= RESULT_CAP,
        forall|i: int|
            0 <= i < fr.directories@.len() ==> stems_from(
                #[trigger] fr.directories@[i],
                candidates,
                lq,
            ),
        forall|i: int|
            0 <= i < fr.files@.len() ==> stems_from(#[trigger] fr.files@[i], candidates, lq),
{
    let chosen = capped_of(candidates, lq);
    let ranked = choose|ranked: Seq<SearchCandidate>| #[trigger] is_ranking(
        fr,
        chosen,
        lq,
        ranked,
    );
    lemma_cand_split_sub(ranked);
    lemma_eligible_sub(candidates, lq);
    assert(ranked.to_multiset().len() == chosen.to_multiset().len());
    assert forall|i: int|
        0 <= i < fr.directories@.len() implies stems_from(
        #[trigger] fr.directories@[i],
        candidates,
        lq,
    ) by {
        let c = cand_dirs(ranked)[i];
        assert(ranked.contains(c));
        assert(chosen.to_multiset().count(c) > 0);
        assert(chosen.contains(c));
        let w = choose|w: int| 0 <= w < chosen.len() && chosen[w] == c;
        assert(chosen[w] == eligible_of(candidates, lq)[w]);
        assert(eligible(c, lq) && candidates.contains(c));
        assert(entry_matches(fr.directories@[i], c.entry));
    }
    assert forall|i: int|
        0 <= i < fr.files@.len() implies stems_from(#[trigger] fr.files@[i], candidates, lq) by {
        let c = cand_files(ranked)[i];
        assert(ranked.contains(c));
        assert(chosen.to_multiset().count(c) > 0);
        assert(chosen.contains(c));
        let w = choose|w: int| 0 <= w < chosen.len() && chosen[w] == c;
        assert(chosen[w] == eligible_of(candidates, lq)[w]);
        assert(eligible(c, lq) && candidates.contains(c));
        assert(entry_matches(fr.files@[i], c.entry));
    }
}

/// Law: a record of directory kind always reports size 0, also in any
/// sequence of records derived from search candidates.
pub proof fn lemma_dir_size_zero_search(es: Seq<DirectoryEntry>, cs: Seq<SearchCandidate>)
    requires
        entries_match_cand(es, cs),
    ensures
        forall|i: int|
            0 <= i < es.len() && (#[trigger] es[i]).kind == crate::entry::EntryKind::Directory
                ==> es[i].size_bytes == 0,
{
    assert forall|i: int|
        0 <= i < es.len() && (#[trigger] es[i]).kind
        == crate::entry::EntryKind::Directory implies es[i].size_bytes == 0 by {
        assert(entry_matches(es[i], cs[i].entry));
    }
}

/// Similarity scores never increase along the sequence.
spec fn score_sorted(lq: Seq<char>, s: Seq<SearchCandidate>) -> bool {
    forall|i: int, j: int|
        0 <= i < j < s.len() ==> sim_score(raw_name((#[trigger] s[i]).entry), lq) >= sim_score(
            raw_name((#[trigger] s[j]).entry),
            lq,
        )
}

/// The bucket filters keep scores non-increasing.
proof fn lemma_split_score_sorted(lq: Seq<char>, s: Seq<SearchCandidate>)
    requires
        score_sorted(lq, s),
    ensures
        score_sorted(lq, cand_dirs(s)),
        score_sorted(lq, cand_files(s)),
    decreases s.len(),
{
    if s.len() == 0 {
    } else {
        assert(score_sorted(lq, s.drop_last()));
        lemma_split_score_sorted(lq, s.drop_last());
        lemma_cand_split_sub(s.drop_last());
        let dd = cand_dirs(s.drop_last());
        let df = cand_files(s.drop_last());
        assert forall|i: int, j: int|
            0 <= i < j < cand_dirs(s).len() implies sim_score(
            raw_name((#[trigger] cand_dirs(s)[i]).entry),
            lq,
        ) >= sim_score(raw_name((#[trigger] cand_dirs(s)[j]).entry), lq) by {
            if j < dd.len() {
            } else {
                assert(cand_dirs(s)[j] == s.last());
                assert(cand_dirs(s)[i] == dd[i]);
                assert(s.drop_last().contains(dd[i]));
                let w = choose|w: int|
                    0 <= w < s.drop_last().len() && s.drop_last()[w] == dd[i];
                assert(s[w] == dd[i]);
                assert(s[s.len() - 1] == s.last());
            }
        }
        assert forall|i: int, j: int|
            0 <= i < j < cand_files(s).len() implies sim_score(
            raw_name((#[trigger] cand_files(s)[i]).entry),
            lq,
        ) >= sim_score(raw_name((#[trigger] cand_files(s)[j]).entry), lq) by {
            if j < df.len() {
            } else {
                assert(cand_files(s)[j] == s.last());
                assert(cand_files(s)[i] == df[i]);
                assert(s.drop_last().contains(df[i]));
                let w = choose|w: int|
                    0 <= w < s.drop_last().len() && s.drop_last()[w] == df[i];
                assert(s[w] == df[i]);
                assert(s[s.len() - 1] == s.last());
            }
        }
    }
}

/// Law: within each bucket of a search result the similarity to the query
/// never increases from one record to the next; in particular a name equal to
/// the lowercased query stands at or before every record whose name matches
/// it only partially.
pub proof fn lemma_ranking_order(fr: FilesResult, chosen: Seq<SearchCandidate>, lq: Seq<char>)
    requires
        search_matches(fr, chosen, lq),
    ensures
        forall|i: int, j: int|
            0 <= i < j < fr.files@.len() ==> sim_score((#[trigger] fr.files@[i]).name@, lq)
                >= sim_score((#[trigger] fr.files@[j]).name@, lq),
        forall|i: int, j: int|
            0 <= i < j < fr.directories@.len() ==> sim_score(
                (#[trigger] fr.directories@[i]).name@,
                lq,
            ) >= sim_score((#[trigger] fr.directories@[j]).name@, lq),
        forall|i: int, j: int|
            0 <= i < j < fr.files@.len() && lower_of((#[trigger] fr.files@[j]).name@) == lq
                ==> lower_of((#[trigger] fr.files@[i]).name@) == lq,
{
    let ranked = choose|ranked: Seq<SearchCandidate>| #[trigger] is_ranking(
        fr,
        chosen,
        lq,
        ranked,
    );
    assert(score_sorted(lq, ranked)) by {
        assert forall|i: int, j: int|
            0 <= i < j < ranked.len() implies sim_score(
            raw_name((#[trigger] ranked[i]).entry),
            lq,
        ) >= sim_score(raw_name((#[trigger] ranked[j]).entry), lq) by {
            assert(rank_le(lq, ranked[i], ranked[j]));
        }
    }
    lemma_split_score_sorted(lq, ranked);
    assert forall|i: int, j: int|
        0 <= i < j < fr.files@.len() implies sim_score((#[trigger] fr.files@[i]).name@, lq)
        >= sim_score((#[trigger] fr.files@[j]).name@, lq) by {
        assert(entry_matches(fr.files@[i], cand_files(ranked)[i].entry));
        assert(entry_matches(fr.files@[j], cand_files(ranked)[j].entry));
    }
    assert forall|i: int, j: int|
        0 <= i < j < fr.directories@.len() implies sim_score(
        (#[trigger] fr.directories@[i]).name@,
        lq,
    ) >= sim_score((#[trigger] fr.directories@[j]).name@, lq) by {
        assert(entry_matches(fr.directories@[i], cand_dirs(ranked)[i].entry));
        assert(entry_matches(fr.directories@[j], cand_dirs(ranked)[j].entry));
    }
}

} // verus!
