//! The matcher: a compiled allow-list and exclude-list of regexes around an
//! optional query expression. Excludes gate the allow-list, which gates the
//! query.
use vstd::prelude::*;

verus! {

use crate::ast::expr_eval;
use crate::ast::Expr;
use crate::ast::SpecExpr;
use crate::chars::str_to_chars;
use crate::rex::compile_regex_ci;
use crate::rex::regex_ci_ok;
use crate::rex::regex_is_match;
use crate::rex::regex_match;
use crate::rex::CompiledRegex;

/// An allow-list, exclude-list or in-query regex pattern failed to compile.
#[derive(Debug)]
pub struct RegexCompileError {
    pub pattern: String,
}

/// The mathematical shape of a matcher: the allow-list and exclude-list
/// pattern texts (all matched case-insensitively) and the query's shape.
pub struct SpecMatcher {
    pub allow: Seq<Seq<char>>,
    pub exclude: Seq<Seq<char>>,
    pub query: Option<SpecExpr>,
}

/// Whether a matcher built from these parts accepts `(path, size)`: any
/// matching exclude regex rejects; with allow regexes present, at least one
/// must match; then the query, if any, decides.
pub open spec fn spec_matches(m: SpecMatcher, path: Seq<char>, size: u64) -> bool {
    if exists|k: int| 0 <= k < m.exclude.len() && regex_match(true, m.exclude[k], path) {
        false
    } else if m.allow.len() > 0 && !(exists|k: int|
    0 <= k < m.allow.len() && regex_match(true, m.allow[k], path)) {
        false
    } else {
        match m.query {
            Some(q) => expr_eval(q, path, size),
            None => true,
        }
    }
}

/// Index of the first pattern at or after `k` that does not compile
/// case-insensitively; the length when all compile.
pub open spec fn first_bad_from(pats: Seq<Seq<char>>, k: int) -> int
    decreases pats.len() - k,
    when 0 <= k <= pats.len()
{
    if k < pats.len() && !regex_ci_ok(pats[k]) {
        k
    } else if k < pats.len() {
        first_bad_from(pats, k + 1)
    } else {
        k
    }
}

/// All patterns in the list compile case-insensitively.
pub open spec fn all_ci_ok(pats: Seq<Seq<char>>) -> bool {
    forall|k: int| 0 <= k < pats.len() ==> regex_ci_ok(pats[k])
}

#[derive(Debug)]
pub struct Matcher {
    query: Option<Expr>,
    allow: Vec<CompiledRegex>,
    exclude: Vec<CompiledRegex>,
}

impl Matcher {
    pub closed spec fn model(&self) -> SpecMatcher {
        SpecMatcher {
            allow: Seq::new(self.allow@.len(), |i: int| self.allow@[i].spec_pattern()),
            exclude: Seq::new(self.exclude@.len(), |i: int| self.exclude@[i].spec_pattern()),
            query: match self.query {
                Some(q) => Some(q.model()),
                None => None,
            },
        }
    }

    /// Every stored regex was compiled case-insensitively.
    pub closed spec fn wf(&self) -> bool {
        &&& forall|i: int| 0 <= i < self.allow@.len() ==> self.allow@[i].spec_ci()
        &&& forall|i: int| 0 <= i < self.exclude@.len() ==> self.exclude@[i].spec_ci()
    }

    /// Compiles the allow and exclude patterns (case-insensitively) around
    /// an already-parsed optional query. Fails on the first pattern that does
    /// not compile, the allow-list before the exclude-list, naming it.
    pub fn from_parts(allows: &Vec<String>, excludes: &Vec<String>, query: Option<Expr>) -> (r:
        Result<Matcher, RegexCompileError>)
        ensures
            r is Ok <==> all_ci_ok(allows.deep_view()) && all_ci_ok(excludes.deep_view()),
            r matches Ok(m) ==> m.wf() && m.model().allow == allows.deep_view()
                && m.model().exclude == excludes.deep_view() && m.model().query == (match query {
                Some(q) => Some(q.model()),
                None => None::<SpecExpr>,
            }),
            r matches Err(e) ==> if !all_ci_ok(allows.deep_view()) {
                e.pattern@ == allows.deep_view()[first_bad_from(allows.deep_view(), 0)]
            } else {
                e.pattern@ == excludes.deep_view()[first_bad_from(excludes.deep_view(), 0)]
            },
    {
        let ghost inc = allows.deep_view();
        let ghost exc = excludes.deep_view();
        let mut allow: Vec<CompiledRegex> = Vec::new();
        let mut k: usize = 0;
        while k < allows.len()
            invariant
                inc == allows.deep_view(),
                k <= inc.len(),
                inc.len() == allows@.len(),
                allow@.len() == k,
                forall|j: int| 0 <= j < k ==> regex_ci_ok(inc[j]),
                forall|j: int| 0 <= j < k ==> allow@[j].spec_pattern() == inc[j],
                forall|j: int| 0 <= j < k ==> allow@[j].spec_ci(),
                first_bad_from(inc, 0) == first_bad_from(inc, k as int),
            decreases inc.len() - k,
        {
            proof {
                assert(inc[k as int] == allows@[k as int]@);
            }
            let pc = str_to_chars(allows[k].as_str());
            match compile_regex_ci(&pc) {
                Some(re) => allow.push(re),
                None => {
                    return Err(RegexCompileError { pattern: allows[k].clone() });
                },
            }
            k += 1;
        }
        let mut exclude: Vec<CompiledRegex> = Vec::new();
        let mut k2: usize = 0;
        while k2 < excludes.len()
            invariant
                inc == allows.deep_view(),
                exc == excludes.deep_view(),
                all_ci_ok(inc),
                k2 <= exc.len(),
                exc.len() == excludes@.len(),
                exclude@.len() == k2,
                forall|j: int| 0 <= j < k2 ==> regex_ci_ok(exc[j]),
                forall|j: int| 0 <= j < k2 ==> exclude@[j].spec_pattern() == exc[j],
                forall|j: int| 0 <= j < k2 ==> exclude@[j].spec_ci(),
                first_bad_from(exc, 0) == first_bad_from(exc, k2 as int),
                allow@.len() == allows@.len(),
                forall|j: int| 0 <= j < allow@.len() ==> allow@[j].spec_pattern() == inc[j],
                forall|j: int| 0 <= j < allow@.len() ==> allow@[j].spec_ci(),
            decreases exc.len() - k2,
        {
            proof {
                assert(exc[k2 as int] == excludes@[k2 as int]@);
            }
            let pc = str_to_chars(excludes[k2].as_str());
            match compile_regex_ci(&pc) {
                Some(re) => exclude.push(re),
                None => {
                    return Err(RegexCompileError { pattern: excludes[k2].clone() });
                },
            }
            k2 += 1;
        }
        let m = Matcher { query, allow, exclude };
        proof {
            assert(all_ci_ok(inc));
            assert(all_ci_ok(exc));
            assert(m.wf());
            assert(m.model().allow =~= inc);
            assert(m.model().exclude =~= exc);
            assert(m.model().query == (match query {
                Some(q) => Some(q.model()),
                None => None::<SpecExpr>,
            }));
        }
        Ok(m)
    }

    /// Whether this matcher accepts the candidate `(path, size)`.
    pub fn matches_path_str(&self, path: &str, size: u64) -> (r: bool)
        requires
            self.wf(),
        ensures
            r == spec_matches(self.model(), path@, size),
    {
        let chars = str_to_chars(path);
        let ghost m = self.model();
        let mut k: usize = 0;
        while k < self.exclude.len()
            invariant
                self.wf(),
                m == self.model(),
                chars@ == path@,
                k <= self.exclude@.len(),
                forall|j: int| 0 <= j < k ==> !regex_match(true, m.exclude[j], path@),
            decreases self.exclude@.len() - k,
        {
            if regex_is_match(&self.exclude[k], &chars) {
                proof {
                    assert(regex_match(true, m.exclude[k as int], path@));
                }
                return false;
            }
            k += 1;
        }
        if self.allow.len() > 0 {
            let mut any: bool = false;
            let mut k2: usize = 0;
            while k2 < self.allow.len() && !any
                invariant
                    self.wf(),
                    m == self.model(),
                    chars@ == path@,
                    k2 <= self.allow@.len(),
                    any ==> exists|j: int|
                        0 <= j < m.allow.len() && regex_match(true, m.allow[j], path@),
                    !any ==> forall|j: int| 0 <= j < k2 ==> !regex_match(true, m.allow[j], path@),
                decreases self.allow@.len() - k2,
            {
                if regex_is_match(&self.allow[k2], &chars) {
                    proof {
                        assert(regex_match(true, m.allow[k2 as int], path@));
                    }
                    any = true;
                }
                k2 += 1;
            }
            if !any {
                return false;
            }
        }
        match &self.query {
            Some(q) => q.eval_chars(&chars, size),
            None => true,
        }
    }
}

} // verus!
