//! The bounded top-K selector: keeps at most `top_n` candidates, evicting the
//! lowest-ranked one when a better candidate arrives, and drains into the
//! final sorted order. Ranking: larger size first; for equal sizes the
//! lexicographically smaller path wins.
use vstd::prelude::*;

verus! {

use crate::chars::lemma_lex_lt_asym;
use crate::chars::lemma_lex_lt_connex;
use crate::chars::lemma_lex_lt_irrefl;
use crate::chars::lemma_lex_lt_trans;
use crate::chars::lex_lt;
use crate::chars::str_lex_lt;
use vstd::seq_lib::group_to_multiset_ensures;
use vstd::seq_lib::to_multiset_insert;

/// One (path, size) record under consideration for the result set.
#[derive(Debug)]
pub struct Candidate {
    pub size: u64,
    pub path: String,
}

/// The mathematical shape of a candidate.
pub struct CandModel {
    pub size: u64,
    pub path: Seq<char>,
}

impl Candidate {
    pub open spec fn model(&self) -> CandModel {
        CandModel { size: self.size, path: self.path@ }
    }
}

/// The models of a run of candidates.
pub open spec fn models(s: Seq<Candidate>) -> Seq<CandModel> {
    s.map_values(|c: Candidate| c.model())
}

/// Whether `a` strictly outranks `b`: larger size, or equal size and the
/// lexicographically smaller path.
pub open spec fn outranks(a: CandModel, b: CandModel) -> bool {
    a.size > b.size || (a.size == b.size && lex_lt(a.path, b.path))
}

/// Whether `a` comes no later than `b` in the drained output: size
/// non-increasing, path non-decreasing among equal sizes.
pub open spec fn out_le(a: CandModel, b: CandModel) -> bool {
    a.size > b.size || (a.size == b.size && !lex_lt(b.path, a.path))
}

/// Strict rank implies output order.
pub proof fn lemma_outranks_out_le(a: CandModel, b: CandModel)
    requires
        outranks(a, b),
    ensures
        out_le(a, b),
{
    if a.size == b.size {
        lemma_lex_lt_asym(a.path, b.path);
    }
}

/// The output order is transitive.
pub proof fn lemma_out_le_trans(a: CandModel, b: CandModel, c: CandModel)
    requires
        out_le(a, b),
        out_le(b, c),
    ensures
        out_le(a, c),
{
    if a.size == b.size && b.size == c.size {
        if lex_lt(c.path, a.path) {
            lemma_lex_lt_connex(b.path, c.path);
            if lex_lt(b.path, c.path) {
                lemma_lex_lt_trans(b.path, c.path, a.path);
            } else if b.path == c.path {
            } else {
            }
        }
    }
}

/// Index of the lowest-ranked candidate (everything else outranks it or
/// equals it); the earliest such index.
pub open spec fn min_index(s: Seq<CandModel>) -> int
    decreases s.len(),
{
    if s.len() <= 1 {
        0
    } else {
        let m = min_index(s.drop_last());
        if outranks(s[m], s.last()) {
            s.len() - 1
        } else {
            m
        }
    }
}

pub proof fn lemma_min_index(s: Seq<CandModel>)
    requires
        s.len() > 0,
    ensures
        0 <= min_index(s) < s.len(),
        forall|j: int| 0 <= j < s.len() ==> out_le(s[j], s[min_index(s)]),
    decreases s.len(),
{
    if s.len() == 1 {
        lemma_lex_lt_irrefl(s[0].path);
    } else {
        let t = s.drop_last();
        lemma_min_index(t);
        let m = min_index(t);
        if outranks(s[m], s.last()) {
            assert forall|j: int| 0 <= j < s.len() implies out_le(s[j], s.last()) by {
                if j < s.len() - 1 {
                    assert(out_le(t[j], t[m]));
                    lemma_outranks_out_le(s[m], s.last());
                    lemma_out_le_trans(s[j], s[m], s.last());
                } else {
                    lemma_lex_lt_irrefl(s.last().path);
                }
            }
        } else {
            assert forall|j: int| 0 <= j < s.len() implies out_le(s[j], s[m]) by {
                if j < s.len() - 1 {
                    assert(out_le(t[j], t[m]));
                } else {
                }
            }
        }
    }
}

/// What one `consider` step does: insert while below capacity; at capacity,
/// replace the lowest-ranked element exactly when the newcomer outranks it.
pub open spec fn spec_consider(s: Seq<CandModel>, top_n: int, c: CandModel) -> Seq<CandModel> {
    if s.len() < top_n {
        s.push(c)
    } else if s.len() == 0 {
        s
    } else if outranks(c, s[min_index(s)]) {
        s.update(min_index(s), c)
    } else {
        s
    }
}

/// The selector never exceeds its capacity: a `consider` step started within
/// the bound stays within it, growing by one only while below it.
pub proof fn lemma_consider_bounded(s: Seq<CandModel>, top_n: int, c: CandModel)
    requires
        s.len() <= top_n,
    ensures
        spec_consider(s, top_n, c).len() <= top_n,
        s.len() < top_n ==> spec_consider(s, top_n, c).len() == s.len() + 1,
        s.len() == top_n ==> spec_consider(s, top_n, c).len() == s.len(),
{
    if s.len() > 0 {
        lemma_min_index(s);
    }
}

/// With capacity one and two equal-size candidates, the one with the
/// lexicographically smaller path is retained, whichever order they arrive.
pub proof fn lemma_tie_break(a: CandModel, b: CandModel)
    requires
        a.size == b.size,
        lex_lt(a.path, b.path),
    ensures
        spec_consider(spec_consider(Seq::<CandModel>::empty(), 1, a), 1, b) == seq![a],
        spec_consider(spec_consider(Seq::<CandModel>::empty(), 1, b), 1, a) == seq![a],
{
    lemma_lex_lt_asym(a.path, b.path);
    let sa = spec_consider(Seq::<CandModel>::empty(), 1, a);
    assert(sa =~= seq![a]);
    assert(min_index(sa) == 0);
    assert(!outranks(b, a));
    assert(spec_consider(sa, 1, b) =~= seq![a]);
    let sb = spec_consider(Seq::<CandModel>::empty(), 1, b);
    assert(sb =~= seq![b]);
    assert(min_index(sb) == 0);
    assert(outranks(a, b));
    assert(spec_consider(sb, 1, a) =~= seq![b].update(0, a));
    assert(seq![b].update(0, a) =~= seq![a]);
}

/// Whether `a` strictly outranks `b`.
pub fn cand_outranks(a: &Candidate, b: &Candidate) -> (r: bool)
    ensures
        r == outranks(a.model(), b.model()),
{
    if a.size > b.size {
        true
    } else if a.size == b.size {
        str_lex_lt(a.path.as_str(), b.path.as_str())
    } else {
        false
    }
}

/// Index of the lowest-ranked candidate currently held (the next eviction
/// target); the earliest such index.
pub fn min_idx(v: &Vec<Candidate>) -> (r: usize)
    requires
        v@.len() > 0,
    ensures
        r as int == min_index(models(v@)),
        r < v@.len(),
{
    let ghost s = models(v@);
    let mut best: usize = 0;
    let mut k: usize = 1;
    proof {
        assert(s.take(1).len() == 1);
    }
    while k < v.len()
        invariant
            s == models(v@),
            s.len() == v@.len(),
            1 <= k <= s.len(),
            best < k,
            best as int == min_index(s.take(k as int)),
        decreases s.len() - k,
    {
        proof {
            assert(s.take(k + 1).drop_last() =~= s.take(k as int));
            assert(s.take(k + 1).last() == s[k as int]);
            assert(forall|i: int| 0 <= i < k ==> s.take(k + 1)[i] == s[i]);
        }
        if cand_outranks(&v[best], &v[k]) {
            best = k;
        }
        k += 1;
    }
    proof {
        assert(s.take(s.len() as int) =~= s);
    }
    best
}

/// Offers one candidate to the bounded selection: inserts while fewer than
/// `top_n` are held, otherwise replaces the current lowest-ranked candidate
/// exactly when the newcomer outranks it.
pub fn consider_candidate(top_files: &mut Vec<Candidate>, top_n: usize, candidate: Candidate)
    ensures
        models(final(top_files)@) == spec_consider(
            models(old(top_files)@),
            top_n as int,
            candidate.model(),
        ),
{
    let ghost s0 = models(top_files@);
    if top_files.len() < top_n {
        top_files.push(candidate);
        proof {
            assert(models(top_files@) =~= s0.push(candidate.model()));
        }
    } else if top_files.len() > 0 {
        let m = min_idx(top_files);
        if cand_outranks(&candidate, &top_files[m]) {
            top_files.set(m, candidate);
            proof {
                assert(models(top_files@) =~= s0.update(m as int, candidate.model()));
            }
        }
    }
}

/// The drained output is sorted: size non-increasing, and path non-decreasing
/// among equal sizes.
pub open spec fn sorted_out(s: Seq<CandModel>) -> bool {
    forall|i: int, j: int| 0 <= i < j < s.len() ==> out_le(s[i], s[j])
}

/// Inserts a candidate into an already sorted vector, keeping it sorted.
#[verifier::rlimit(60)]
fn insert_sorted(out: &mut Vec<Candidate>, c: Candidate)
    requires
        sorted_out(models(old(out)@)),
    ensures
        sorted_out(models(final(out)@)),
        models(final(out)@).to_multiset() == models(old(out)@).to_multiset().insert(c.model()),
{
    broadcast use to_multiset_insert;

    let ghost s0 = models(out@);
    let mut j: usize = 0;
    while j < out.len() && !cand_outranks(&c, &out[j])
        invariant
            s0 == models(out@),
            s0.len() == out@.len(),
            j <= s0.len(),
            sorted_out(s0),
            forall|i: int| 0 <= i < j ==> !outranks(c.model(), s0[i]),
        decreases s0.len() - j,
    {
        j += 1;
    }
    let ghost cm = c.model();
    out.insert(j, c);
    proof {
        s0.insert_ensures(j as int, cm);
        let s1 = models(out@);
        assert(s1 =~= s0.insert(j as int, cm));
        assert forall|x: int, y: int| 0 <= x < y < s1.len() implies out_le(s1[x], s1[y]) by {
            if y < j {
                assert(s1[x] == s0[x] && s1[y] == s0[y]);
            } else if x > j {
                assert(s1[x] == s0[x - 1] && s1[y] == s0[y - 1]);
            } else if x < j && y == j {
                assert(s1[x] == s0[x] && s1[y] == cm);
                assert(!outranks(cm, s0[x]));
            } else if x == j && y > j {
                assert(s1[x] == cm && s1[y] == s0[y - 1]);
                assert(outranks(cm, s0[j as int]));
                lemma_outranks_out_le(cm, s0[j as int]);
                if y - 1 > j {
                    lemma_out_le_trans(cm, s0[j as int], s0[y - 1]);
                }
            } else {
                assert(x < j && y > j);
                assert(s1[x] == s0[x] && s1[y] == s0[y - 1]);
                if x < y - 1 {
                } else {
                    assert(false);
                }
            }
        }
        assert(s1.to_multiset() == s0.to_multiset().insert(cm));
    }
}

/// Empties the selection into the final result order: sizes non-increasing,
/// and for equal sizes paths non-decreasing. The output holds exactly the
/// candidates that were held, and the selection is consumed.
pub fn drain_sorted(items: Vec<Candidate>) -> (r: Vec<Candidate>)
    ensures
        sorted_out(models(r@)),
        models(r@).to_multiset() == models(items@).to_multiset(),
{
    broadcast use group_to_multiset_ensures;

    let ghost all = models(items@);
    let mut src = items;
    let mut out: Vec<Candidate> = Vec::new();
    proof {
        assert(models(out@) =~= Seq::<CandModel>::empty());
        assert(models(out@).to_multiset().add(models(src@).to_multiset()) =~= all.to_multiset());
    }
    while src.len() > 0
        invariant
            sorted_out(models(out@)),
            models(out@).to_multiset().add(models(src@).to_multiset()) == all.to_multiset(),
        decreases src@.len(),
    {
        let ghost sv = models(src@);
        let ghost ov = models(out@);
        let c = src.pop().unwrap();
        proof {
            sv.to_multiset_ensures();
            assert(models(src@) =~= sv.drop_last());
            assert(sv.drop_last() =~= sv.remove(sv.len() - 1));
            assert(sv.remove(sv.len() - 1).to_multiset() =~= sv.to_multiset().remove(
                sv[sv.len() - 1],
            ));
            assert(sv[sv.len() - 1] == c.model());
            assert(sv.contains(sv[sv.len() - 1]));
            assert(sv.to_multiset().count(c.model()) > 0);
        }
        insert_sorted(&mut out, c);
        proof {
            assert(models(out@).to_multiset().add(models(src@).to_multiset())
                =~= ov.to_multiset().insert(c.model()).add(
                sv.to_multiset().remove(c.model()),
            ));
            assert(ov.to_multiset().insert(c.model()).add(sv.to_multiset().remove(c.model()))
                =~= ov.to_multiset().add(sv.to_multiset()));
        }
    }
    proof {
        assert(models(src@).to_multiset().len() == 0);
        assert(models(out@).to_multiset().add(models(src@).to_multiset()) =~= models(
            out@,
        ).to_multiset());
    }
    out
}

} // verus!
