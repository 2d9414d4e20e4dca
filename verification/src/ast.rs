//! The query AST: predicates over a (path, size) candidate, boolean
//! combinations of them, and their evaluation.
use vstd::prelude::*;

verus! {

use crate::chars::eq_ignore_case;
use crate::chars::range_eq_ignore_case;
use crate::chars::str_to_chars;
use crate::rex::regex_is_match;
use crate::rex::regex_match;
use crate::rex::CompiledRegex;

/// A size comparison operator.
#[derive(Clone, Copy, Debug, PartialEq, Eq, Structural)]
pub enum CmpOp {
    Lt,
    Lte,
    Gt,
    Gte,
    Eq,
}

/// One atomic test against a candidate.
#[derive(Debug)]
pub enum Predicate {
    /// A regex matched against the full path string.
    PathRegex(CompiledRegex),
    /// A regex matched against the final path component only.
    NameRegex(CompiledRegex),
    /// Case-insensitive equality of the file extension.
    ExtEq(String),
    /// A comparison of the candidate's byte size against a constant.
    SizeCmp { op: CmpOp, bytes: u64 },
}

/// A parsed boolean query expression.
#[derive(Debug)]
pub enum Expr {
    And(Box<Expr>, Box<Expr>),
    Or(Box<Expr>, Box<Expr>),
    Not(Box<Expr>),
    Pred(Predicate),
}

/// The mathematical shape of a predicate: patterns and values only.
pub enum SpecPredicate {
    PathRe { ci: bool, pat: Seq<char> },
    NameRe { ci: bool, pat: Seq<char> },
    ExtIs { ext: Seq<char> },
    SizeIs { op: CmpOp, bytes: u64 },
}

/// The mathematical shape of a query expression.
pub enum SpecExpr {
    And(Box<SpecExpr>, Box<SpecExpr>),
    Or(Box<SpecExpr>, Box<SpecExpr>),
    Not(Box<SpecExpr>),
    Pred(SpecPredicate),
}

impl Predicate {
    pub open spec fn model(&self) -> SpecPredicate {
        match self {
            Predicate::PathRegex(re) => SpecPredicate::PathRe {
                ci: re.spec_ci(),
                pat: re.spec_pattern(),
            },
            Predicate::NameRegex(re) => SpecPredicate::NameRe {
                ci: re.spec_ci(),
                pat: re.spec_pattern(),
            },
            Predicate::ExtEq(ext) => SpecPredicate::ExtIs { ext: ext@ },
            Predicate::SizeCmp { op, bytes } => SpecPredicate::SizeIs { op: *op, bytes: *bytes },
        }
    }
}

impl Expr {
    pub open spec fn model(&self) -> SpecExpr
        decreases self,
    {
        match self {
            Expr::And(a, b) => SpecExpr::And(Box::new(a.model()), Box::new(b.model())),
            Expr::Or(a, b) => SpecExpr::Or(Box::new(a.model()), Box::new(b.model())),
            Expr::Not(a) => SpecExpr::Not(Box::new(a.model())),
            Expr::Pred(p) => SpecExpr::Pred(p.model()),
        }
    }
}

/// The path with every trailing `/` removed.
pub open spec fn strip_trailing_slashes(p: Seq<char>) -> Seq<char>
    decreases p.len(),
{
    if p.len() > 0 && p.last() == '/' {
        strip_trailing_slashes(p.drop_last())
    } else {
        p
    }
}

/// The suffix after the last `/`; the whole sequence if it has no `/`.
pub open spec fn after_last_slash(s: Seq<char>) -> Seq<char>
    decreases s.len(),
{
    if s.len() == 0 {
        s
    } else if s.last() == '/' {
        Seq::<char>::empty()
    } else {
        after_last_slash(s.drop_last()).push(s.last())
    }
}

/// The final path component: trailing slashes are ignored; the root, `.` and
/// `..` have none.
pub open spec fn basename_of(p: Seq<char>) -> Option<Seq<char>> {
    let t = strip_trailing_slashes(p);
    if t.len() == 0 {
        None
    } else {
        let n = after_last_slash(t);
        if n == seq!['.'] || n == seq!['.', '.'] {
            None
        } else {
            Some(n)
        }
    }
}

/// The suffix after the last `.` of a file name; `None` when the name has no
/// `.` past its first character (so a leading-dot name has no extension).
pub open spec fn ext_of(name: Seq<char>) -> Option<Seq<char>>
    decreases name.len(),
{
    if name.len() <= 1 {
        None
    } else if name.last() == '.' {
        Some(Seq::<char>::empty())
    } else {
        match ext_of(name.drop_last()) {
            Some(e) => Some(e.push(name.last())),
            None => None,
        }
    }
}

/// What a size comparison returns.
pub open spec fn cmp_eval(op: CmpOp, size: u64, bytes: u64) -> bool {
    match op {
        CmpOp::Lt => size < bytes,
        CmpOp::Lte => size <= bytes,
        CmpOp::Gt => size > bytes,
        CmpOp::Gte => size >= bytes,
        CmpOp::Eq => size == bytes,
    }
}

/// What one predicate returns on a candidate.
pub open spec fn pred_eval(p: SpecPredicate, path: Seq<char>, size: u64) -> bool {
    match p {
        SpecPredicate::PathRe { ci, pat } => regex_match(ci, pat, path),
        SpecPredicate::NameRe { ci, pat } => match basename_of(path) {
            Some(n) => regex_match(ci, pat, n),
            None => false,
        },
        SpecPredicate::ExtIs { ext } => match basename_of(path) {
            Some(n) => match ext_of(n) {
                Some(e) => eq_ignore_case(e, ext),
                None => false,
            },
            None => false,
        },
        SpecPredicate::SizeIs { op, bytes } => cmp_eval(op, size, bytes),
    }
}

/// What a whole expression returns on a candidate.
pub open spec fn expr_eval(e: SpecExpr, path: Seq<char>, size: u64) -> bool
    decreases e,
{
    match e {
        SpecExpr::And(a, b) => expr_eval(*a, path, size) && expr_eval(*b, path, size),
        SpecExpr::Or(a, b) => expr_eval(*a, path, size) || expr_eval(*b, path, size),
        SpecExpr::Not(a) => !expr_eval(*a, path, size),
        SpecExpr::Pred(p) => pred_eval(p, path, size),
    }
}

/// Splitting at the last slash: if everything from `s` on is slash-free and
/// `s` sits right after a slash (or at the start), the suffix after the last
/// slash is exactly that tail.
proof fn lemma_after_last_slash_split(t: Seq<char>, s: int)
    requires
        0 <= s <= t.len(),
        forall|k: int| s <= k < t.len() ==> t[k] != '/',
        s > 0 ==> t[s - 1] == '/',
    ensures
        after_last_slash(t) == t.subrange(s, t.len() as int),
    decreases t.len() - s,
{
    if s == t.len() {
        if s > 0 {
            assert(t.last() == '/');
            assert(t.subrange(s, t.len() as int) =~= Seq::<char>::empty());
        } else {
            assert(t.len() == 0);
            assert(t.subrange(0, 0) =~= t);
        }
    } else {
        assert(t.last() != '/');
        lemma_after_last_slash_split(t.drop_last(), s);
        assert(t.drop_last().subrange(s, t.len() - 1) =~= t.subrange(s, t.len() - 1));
        assert(t.subrange(s, t.len() - 1).push(t.last()) =~= t.subrange(s, t.len() as int));
    }
}

/// Splitting at the last dot: if everything from `s` on is dot-free, the
/// extension is the tail after a dot that sits at `s - 1 >= 1`, and absent
/// when there is no such dot.
proof fn lemma_ext_of_split(t: Seq<char>, s: int)
    requires
        0 <= s <= t.len(),
        forall|k: int| s <= k < t.len() ==> t[k] != '.',
        s > 0 ==> t[s - 1] == '.',
    ensures
        s >= 2 ==> ext_of(t) == Some(t.subrange(s, t.len() as int)),
        s < 2 ==> ext_of(t) is None,
    decreases t.len() - s,
{
    if s == t.len() {
        if s >= 2 {
            assert(t.last() == '.');
            assert(t.subrange(s, t.len() as int) =~= Seq::<char>::empty());
        }
    } else {
        assert(t.last() != '.');
        lemma_ext_of_split(t.drop_last(), s);
        if s >= 2 {
            assert(t.drop_last().subrange(s, t.len() - 1) =~= t.subrange(s, t.len() - 1));
            assert(t.subrange(s, t.len() - 1).push(t.last()) =~= t.subrange(s, t.len() as int));
        }
    }
}

/// The final path component of `path`, or `None` where it has none.
pub fn basename_chars(path: &Vec<char>) -> (r: Option<Vec<char>>)
    ensures
        match r {
            Some(n) => basename_of(path@) == Some(n@),
            None => basename_of(path@) is None,
        },
{
    let ghost p = path@;
    let mut e: usize = path.len();
    proof {
        assert(p.take(e as int) =~= p);
    }
    while e > 0 && path[e - 1] == '/'
        invariant
            e <= p.len(),
            p == path@,
            strip_trailing_slashes(p) == strip_trailing_slashes(p.take(e as int)),
        decreases e,
    {
        proof {
            assert(p.take(e as int).drop_last() =~= p.take(e - 1));
        }
        e -= 1;
    }
    proof {
        assert(p.take(e as int).len() == e);
        if e > 0 {
            assert(p.take(e as int).last() != '/');
        }
        assert(strip_trailing_slashes(p.take(e as int)) == p.take(e as int));
    }
    if e == 0 {
        return None;
    }
    let ghost t = p.take(e as int);
    let mut s: usize = e;
    while s > 0 && path[s - 1] != '/'
        invariant
            s <= e <= p.len(),
            p == path@,
            t == p.take(e as int),
            forall|k: int| s <= k < e ==> t[k] != '/',
        decreases s,
    {
        s -= 1;
    }
    proof {
        lemma_after_last_slash_split(t, s as int);
    }
    let mut name: Vec<char> = Vec::new();
    let mut k: usize = s;
    while k < e
        invariant
            s <= k <= e <= p.len(),
            p == path@,
            t == p.take(e as int),
            name@ == t.subrange(s as int, k as int),
        decreases e - k,
    {
        name.push(path[k]);
        proof {
            assert(name@ =~= t.subrange(s as int, k + 1));
        }
        k += 1;
    }
    assert(name@ == after_last_slash(t));
    if name.len() == 1 && name[0] == '.' {
        proof {
            assert(name@ =~= seq!['.']);
        }
        return None;
    }
    if name.len() == 2 && name[0] == '.' && name[1] == '.' {
        proof {
            assert(name@ =~= seq!['.', '.']);
        }
        return None;
    }
    proof {
        assert(name@ != seq!['.'] && name@ != seq!['.', '.']);
    }
    Some(name)
}

/// The extension of a file name, or `None` where it has none.
pub fn ext_chars(name: &Vec<char>) -> (r: Option<Vec<char>>)
    ensures
        match r {
            Some(e) => ext_of(name@) == Some(e@),
            None => ext_of(name@) is None,
        },
{
    let ghost t = name@;
    let n = name.len();
    let mut s: usize = n;
    while s > 0 && name[s - 1] != '.'
        invariant
            s <= n == t.len(),
            t == name@,
            forall|k: int| s <= k < n ==> t[k] != '.',
        decreases s,
    {
        s -= 1;
    }
    proof {
        lemma_ext_of_split(t, s as int);
    }
    if s < 2 {
        return None;
    }
    let mut ext: Vec<char> = Vec::new();
    let mut k: usize = s;
    while k < n
        invariant
            s <= k <= n == t.len(),
            t == name@,
            ext@ == t.subrange(s as int, k as int),
        decreases n - k,
    {
        ext.push(name[k]);
        proof {
            assert(ext@ =~= t.subrange(s as int, k + 1));
        }
        k += 1;
    }
    Some(ext)
}

impl Predicate {
    /// Evaluates this predicate on a candidate given as characters and size.
    pub fn eval_chars(&self, path: &Vec<char>, size: u64) -> (r: bool)
        ensures
            r == pred_eval(self.model(), path@, size),
    {
        match self {
            Predicate::PathRegex(re) => regex_is_match(re, path),
            Predicate::NameRegex(re) => match basename_chars(path) {
                Some(n) => regex_is_match(re, &n),
                None => false,
            },
            Predicate::ExtEq(ext) => match basename_chars(path) {
                Some(n) => match ext_chars(&n) {
                    Some(e) => {
                        let want = str_to_chars(ext.as_str());
                        let el = e.len();
                        range_eq_ignore_case(&e, 0, el, &want)
                    },
                    None => false,
                },
                None => false,
            },
            Predicate::SizeCmp { op, bytes } => match op {
                CmpOp::Lt => size < *bytes,
                CmpOp::Lte => size <= *bytes,
                CmpOp::Gt => size > *bytes,
                CmpOp::Gte => size >= *bytes,
                CmpOp::Eq => size == *bytes,
            },
        }
    }
}

impl Expr {
    /// Evaluates this expression on a candidate given as characters and size;
    /// `And` and `Or` short-circuit on their left operand.
    pub fn eval_chars(&self, path: &Vec<char>, size: u64) -> (r: bool)
        ensures
            r == expr_eval(self.model(), path@, size),
        decreases self,
    {
        match self {
            Expr::And(a, b) => a.eval_chars(path, size) && b.eval_chars(path, size),
            Expr::Or(a, b) => a.eval_chars(path, size) || b.eval_chars(path, size),
            Expr::Not(a) => !a.eval_chars(path, size),
            Expr::Pred(p) => p.eval_chars(path, size),
        }
    }

    /// Evaluates this expression on a candidate (path, size).
    pub fn eval(&self, path: &str, size: u64) -> (r: bool)
        ensures
            r == expr_eval(self.model(), path@, size),
    {
        let chars = str_to_chars(path);
        self.eval_chars(&chars, size)
    }
}

} // verus!
