//! The recursive-descent parser for the query language: `NOT`/`!` binds
//! tighter than `AND`/`&&`, which binds tighter than `OR`/`||`; parentheses
//! reset precedence; keywords are matched case-insensitively as whole
//! identifier-like tokens. Error positions are byte offsets into the query.
use vstd::prelude::*;

verus! {

use crate::ast::CmpOp;
use crate::ast::Expr;
use crate::ast::Predicate;
use crate::ast::SpecExpr;
use crate::ast::SpecPredicate;
use crate::chars::byte_offset;
use crate::chars::byte_pos;
use crate::chars::chars_to_string;
use crate::chars::eq_ignore_case;
use crate::chars::ident_run_end;
use crate::chars::is_ws;
use crate::chars::lemma_byte_pos_mono;
use crate::chars::lemma_ws_prefix_end;
use crate::chars::range_eq_ignore_case;
use crate::chars::scan_ident;
use crate::chars::scan_ws;
use crate::chars::str_to_chars;
use crate::chars::ws_prefix_end;
use vstd::string::StringSliceAdditionalSpecFns;
use crate::rex::compile_regex;
use crate::rex::regex_ok;
use crate::rex::CompiledRegex;
use crate::size_literal::parse_size_bytes;
use crate::size_literal::spec_parse_size;
use crate::size_literal::SizeLiteralError;

/// Why parsing failed.
#[derive(Debug)]
pub enum ParseErrorKind {
    /// No predicate starts at this position.
    ExpectedPredicate,
    /// A specific punctuation character was required.
    ExpectedChar(char),
    /// `size` must be followed by a comparison operator.
    ExpectedCmpOp,
    /// A regex literal delimited by `/` was required.
    ExpectedRegex,
    /// The input ended inside a regex literal.
    UnterminatedRegex,
    /// The pattern of a regex literal failed to compile.
    RegexCompile(String),
    /// `ext:` requires a non-empty value.
    EmptyExtValue,
    /// A size literal was malformed.
    Size(SizeLiteralError),
    /// Input was left over after a complete expression.
    TrailingInput,
}

/// A parse failure, carrying the byte offset where parsing failed.
#[derive(Debug)]
pub struct ParseError {
    pub pos: usize,
    pub kind: ParseErrorKind,
}

/// The mathematical shape of a parse failure.
pub enum SpecParseErr {
    ExpectedPredicate,
    ExpectedChar(char),
    ExpectedCmpOp,
    ExpectedRegex,
    UnterminatedRegex,
    RegexCompile(Seq<char>),
    EmptyExtValue,
    Size(SizeLiteralError),
    TrailingInput,
}

impl ParseErrorKind {
    pub open spec fn model(&self) -> SpecParseErr {
        match self {
            ParseErrorKind::ExpectedPredicate => SpecParseErr::ExpectedPredicate,
            ParseErrorKind::ExpectedChar(c) => SpecParseErr::ExpectedChar(*c),
            ParseErrorKind::ExpectedCmpOp => SpecParseErr::ExpectedCmpOp,
            ParseErrorKind::ExpectedRegex => SpecParseErr::ExpectedRegex,
            ParseErrorKind::UnterminatedRegex => SpecParseErr::UnterminatedRegex,
            ParseErrorKind::RegexCompile(p) => SpecParseErr::RegexCompile(p@),
            ParseErrorKind::EmptyExtValue => SpecParseErr::EmptyExtValue,
            ParseErrorKind::Size(e) => SpecParseErr::Size(*e),
            ParseErrorKind::TrailingInput => SpecParseErr::TrailingInput,
        }
    }
}

/// Whether `t` occurs in `s` starting exactly at position `i`.
pub open spec fn has_at(s: Seq<char>, i: int, t: Seq<char>) -> bool {
    0 <= i && i + t.len() <= s.len() && s.subrange(i, i + t.len()) == t
}

/// First position at or after `i` that ends a bare value: whitespace or a
/// parenthesis, or the end of input.
pub open spec fn bare_run_end(s: Seq<char>, i: int) -> int
    decreases s.len() - i,
    when 0 <= i <= s.len()
{
    if i < s.len() && !is_ws(s[i]) && s[i] != '(' && s[i] != ')' {
        bare_run_end(s, i + 1)
    } else {
        i
    }
}

pub proof fn lemma_bare_run_end(s: Seq<char>, i: int)
    requires
        0 <= i <= s.len(),
    ensures
        i <= bare_run_end(s, i) <= s.len(),
    decreases s.len() - i,
{
    if i < s.len() && !is_ws(s[i]) && s[i] != '(' && s[i] != ')' {
        lemma_bare_run_end(s, i + 1);
    }
}

/// First position at or after `i` that ends a bare value.
pub fn scan_bare(chars: &Vec<char>, i: usize) -> (r: usize)
    requires
        i <= chars@.len(),
    ensures
        r == bare_run_end(chars@, i as int),
        i <= r <= chars@.len(),
{
    proof {
        lemma_bare_run_end(chars@, i as int);
    }
    let mut j: usize = i;
    while j < chars.len() && !crate::chars::ws_char(chars[j]) && chars[j] != '(' && chars[j] != ')'
        invariant
            i <= j <= chars@.len(),
            bare_run_end(chars@, i as int) == bare_run_end(chars@, j as int),
        decreases chars@.len() - j,
    {
        j += 1;
    }
    j
}

/// Result of scanning a regex literal body (after its opening `/`): the
/// pattern text with the delimiter-escape rule applied, and the position
/// after the closing `/`.
pub enum RegexScan {
    Done { pat: Seq<char>, next: int },
    Unterminated,
}

/// Scans from `i` to an unescaped closing `/`. A `\/` pair emits `/`; a
/// backslash before any other character is kept verbatim with that character.
pub open spec fn scan_regex(s: Seq<char>, i: int) -> RegexScan
    decreases s.len() - i,
    when 0 <= i <= s.len()
{
    if i >= s.len() {
        RegexScan::Unterminated
    } else if s[i] == '/' {
        RegexScan::Done { pat: Seq::<char>::empty(), next: i + 1 }
    } else if s[i] == '\\' {
        if i + 1 >= s.len() {
            RegexScan::Unterminated
        } else {
            match scan_regex(s, i + 2) {
                RegexScan::Done { pat, next } => RegexScan::Done {
                    pat: (if s[i + 1] == '/' {
                        seq!['/']
                    } else {
                        seq!['\\', s[i + 1]]
                    }) + pat,
                    next,
                },
                RegexScan::Unterminated => RegexScan::Unterminated,
            }
        }
    } else {
        match scan_regex(s, i + 1) {
            RegexScan::Done { pat, next } => RegexScan::Done { pat: seq![s[i]] + pat, next },
            RegexScan::Unterminated => RegexScan::Unterminated,
        }
    }
}

/// The comparison operator at position `i`, two-character forms first.
pub open spec fn spec_cmp_op(s: Seq<char>, i: int) -> Option<(CmpOp, int)> {
    if has_at(s, i, seq!['>', '=']) {
        Some((CmpOp::Gte, i + 2))
    } else if has_at(s, i, seq!['<', '=']) {
        Some((CmpOp::Lte, i + 2))
    } else if has_at(s, i, seq!['>']) {
        Some((CmpOp::Gt, i + 1))
    } else if has_at(s, i, seq!['<']) {
        Some((CmpOp::Lt, i + 1))
    } else if has_at(s, i, seq!['=']) {
        Some((CmpOp::Eq, i + 1))
    } else {
        None
    }
}

/// Whether what starts at `i` (after whitespace) is a plain predicate: no
/// `NOT`/`!` prefix and no opening parenthesis.
pub open spec fn plain_predicate_ahead(s: Seq<char>, i: int) -> bool {
    let j = ws_prefix_end(s, i);
    let e = ident_run_end(s, j);
    &&& !has_at(s, j, seq!['!'])
    &&& !eq_ignore_case(s.subrange(j, e), seq!['N', 'O', 'T'])
    &&& (j >= s.len() || s[j] != '(')
}

/// Whether an `AND`/`&&` token stands at `j`.
pub open spec fn and_token_at(s: Seq<char>, j: int) -> bool {
    let e = ident_run_end(s, j);
    has_at(s, j, seq!['&', '&']) || eq_ignore_case(s.subrange(j, e), seq!['A', 'N', 'D'])
}

/// Whether an `OR`/`||` token stands at `j`.
pub open spec fn or_token_at(s: Seq<char>, j: int) -> bool {
    let e = ident_run_end(s, j);
    has_at(s, j, seq!['|', '|']) || eq_ignore_case(s.subrange(j, e), seq!['O', 'R'])
}

/// Outcome of parsing one predicate.
pub enum PredOutcome {
    POk { p: SpecPredicate, next: int },
    PErr { pos: nat, err: SpecParseErr },
}

/// The regex-literal part of a predicate, shared by the bare, `name:` and
/// `path:` forms: `j` is the position where the literal must start.
pub open spec fn spec_regex_lit(s: Seq<char>, j: int) -> PredOutcome {
    if j < s.len() && s[j] == '/' {
        match scan_regex(s, j + 1) {
            RegexScan::Done { pat, next } => {
                if regex_ok(pat) {
                    PredOutcome::POk { p: SpecPredicate::PathRe { ci: false, pat }, next }
                } else {
                    PredOutcome::PErr { pos: byte_pos(s, j), err: SpecParseErr::RegexCompile(pat) }
                }
            },
            RegexScan::Unterminated => PredOutcome::PErr {
                pos: byte_pos(s, s.len() as int),
                err: SpecParseErr::UnterminatedRegex,
            },
        }
    } else {
        PredOutcome::PErr { pos: byte_pos(s, j), err: SpecParseErr::ExpectedRegex }
    }
}

/// The predicate grammar: a bare regex literal, `name:`/`path:` plus a regex
/// literal, `ext:` plus a bare value, or `size` plus a comparison and a size
/// literal.
pub open spec fn spec_parse_predicate(s: Seq<char>, i: int) -> PredOutcome {
    let j = ws_prefix_end(s, i);
    let e = ident_run_end(s, j);
    let kw = s.subrange(j, e);
    if j < s.len() && s[j] == '/' {
        spec_regex_lit(s, j)
    } else if eq_ignore_case(kw, seq!['n', 'a', 'm', 'e']) {
        let j2 = ws_prefix_end(s, e);
        if j2 < s.len() && s[j2] == ':' {
            match spec_regex_lit(s, ws_prefix_end(s, j2 + 1)) {
                PredOutcome::POk { p: SpecPredicate::PathRe { ci, pat }, next } => PredOutcome::POk {
                    p: SpecPredicate::NameRe { ci, pat },
                    next,
                },
                other => other,
            }
        } else {
            PredOutcome::PErr { pos: byte_pos(s, j2), err: SpecParseErr::ExpectedChar(':') }
        }
    } else if eq_ignore_case(kw, seq!['p', 'a', 't', 'h']) {
        let j2 = ws_prefix_end(s, e);
        if j2 < s.len() && s[j2] == ':' {
            spec_regex_lit(s, ws_prefix_end(s, j2 + 1))
        } else {
            PredOutcome::PErr { pos: byte_pos(s, j2), err: SpecParseErr::ExpectedChar(':') }
        }
    } else if eq_ignore_case(kw, seq!['e', 'x', 't']) {
        let j2 = ws_prefix_end(s, e);
        if j2 < s.len() && s[j2] == ':' {
            let b0 = ws_prefix_end(s, j2 + 1);
            let b1 = bare_run_end(s, b0);
            if b1 == b0 {
                PredOutcome::PErr { pos: byte_pos(s, b0), err: SpecParseErr::EmptyExtValue }
            } else {
                PredOutcome::POk { p: SpecPredicate::ExtIs { ext: s.subrange(b0, b1) }, next: b1 }
            }
        } else {
            PredOutcome::PErr { pos: byte_pos(s, j2), err: SpecParseErr::ExpectedChar(':') }
        }
    } else if eq_ignore_case(kw, seq!['s', 'i', 'z', 'e']) {
        let j2 = ws_prefix_end(s, e);
        match spec_cmp_op(s, j2) {
            None => PredOutcome::PErr { pos: byte_pos(s, j2), err: SpecParseErr::ExpectedCmpOp },
            Some((op, n)) => {
                let b0 = ws_prefix_end(s, n);
                let b1 = bare_run_end(s, b0);
                match spec_parse_size(s.subrange(b0, b1)) {
                    Ok(v) => PredOutcome::POk { p: SpecPredicate::SizeIs { op, bytes: v }, next: b1 },
                    Err(se) => PredOutcome::PErr { pos: byte_pos(s, b0), err: SpecParseErr::Size(se) },
                }
            },
        }
    } else {
        PredOutcome::PErr { pos: byte_pos(s, j), err: SpecParseErr::ExpectedPredicate }
    }
}

/// The recursive-descent parser's cursor over a query string.
pub struct ParserExpr {
    chars: Vec<char>,
    i: usize,
}

impl ParserExpr {
    /// The characters of the query being parsed.
    pub closed spec fn src(&self) -> Seq<char> {
        self.chars@
    }

    /// The current cursor, as a character position.
    pub closed spec fn at(&self) -> int {
        self.i as int
    }

    pub open spec fn wf(&self) -> bool {
        0 <= self.at() <= self.src().len() && byte_pos(self.src(), self.src().len() as int)
            <= usize::MAX
    }

    /// A fresh parser over `query`, with the cursor at the start.
    pub fn new(query: &str) -> (p: ParserExpr)
        ensures
            p.src() == query@,
            p.at() == 0,
            p.wf(),
    {
        let nb = query.as_bytes().len();
        let chars = str_to_chars(query);
        proof {
            broadcast use vstd::slice::axiom_spec_len;

            assert(query@.take(query@.len() as int) =~= query@);
            assert(query.spec_bytes() == vstd::utf8::encode_utf8(query@));
            assert(byte_pos(query@, query@.len() as int) == nb);
        }
        ParserExpr { chars, i: 0 }
    }

    /// A parse error whose position is the byte offset of character `idx`.
    fn err_at(&self, idx: usize, kind: ParseErrorKind) -> (e: ParseError)
        requires
            self.wf(),
            idx <= self.src().len(),
        ensures
            e.pos == byte_pos(self.src(), idx as int),
            e.kind == kind,
            e.pos <= byte_pos(self.src(), self.src().len() as int),
    {
        proof {
            lemma_byte_pos_mono(self.src(), idx as int, self.src().len() as int);
        }
        let pos = byte_offset(&self.chars, idx);
        ParseError { pos, kind }
    }

    /// Moves the cursor past any whitespace.
    pub fn skip_ws(&mut self)
        requires
            old(self).wf(),
        ensures
            final(self).wf(),
            final(self).src() == old(self).src(),
            final(self).at() == ws_prefix_end(final(self).src(), old(self).at()),
            old(self).at() <= final(self).at(),
    {
        self.i = scan_ws(&self.chars, self.i);
    }

    /// The character under the cursor, if any; the cursor does not move.
    pub fn peek_char(&self) -> (r: Option<char>)
        requires
            self.wf(),
        ensures
            r == if self.at() < self.src().len() {
                Some(self.src()[self.at()])
            } else {
                None::<char>
            },
    {
        if self.i < self.chars.len() {
            Some(self.chars[self.i])
        } else {
            None
        }
    }

    /// Consumes `op` exactly if it occurs at the cursor; no whitespace is
    /// skipped.
    pub fn consume_op(&mut self, op: &str) -> (r: bool)
        requires
            old(self).wf(),
        ensures
            final(self).wf(),
            final(self).src() == old(self).src(),
            r == has_at(old(self).src(), old(self).at(), op@),
            r ==> final(self).at() == old(self).at() + op@.len(),
            !r ==> final(self).at() == old(self).at(),
    {
        let ghost s = self.src();
        let ghost i0 = self.at();
        let m = op.unicode_len();
        if m > self.chars.len() - self.i {
            proof {
                assert(!has_at(s, i0, op@));
            }
            return false;
        }
        let mut k: usize = 0;
        while k < m
            invariant
                self.wf(),
                s == self.src(),
                i0 == self.at(),
                i0 + m <= s.len(),
                s.len() <= usize::MAX,
                m == op@.len(),
                k <= m,
                forall|j: int| 0 <= j < k ==> s[i0 + j] == op@[j],
            decreases m - k,
        {
            if self.chars[self.i + k] != op.get_char(k) {
                proof {
                    assert(s.subrange(i0, i0 + m as int)[k as int] == s[i0 + k]);
                    assert(!has_at(s, i0, op@));
                }
                return false;
            }
            k += 1;
        }
        proof {
            assert(s.subrange(i0, i0 + m as int) =~= op@);
        }
        self.i = self.i + m;
        true
    }

    /// Skips whitespace, then consumes the keyword `kw` if the whole
    /// identifier-like run at the cursor equals it, ASCII case-insensitively.
    pub fn consume_kw(&mut self, kw: &str) -> (r: bool)
        requires
            old(self).wf(),
        ensures
            final(self).wf(),
            final(self).src() == old(self).src(),
            ({
                let j = ws_prefix_end(final(self).src(), old(self).at());
                let e = ident_run_end(final(self).src(), j);
                r == eq_ignore_case(final(self).src().subrange(j, e), kw@) && final(self).at() == if r {
                    e
                } else {
                    j
                }
            }),
            old(self).at() <= final(self).at(),
    {
        self.skip_ws();
        let j = self.i;
        let e = scan_ident(&self.chars, j);
        let kwc = str_to_chars(kw);
        if range_eq_ignore_case(&self.chars, j, e, &kwc) {
            self.i = e;
            true
        } else {
            false
        }
    }

    /// Skips whitespace, then requires the character `expected` at the
    /// cursor; on failure the error points at the offending position.
    pub fn expect_char(&mut self, expected: char) -> (r: Result<(), ParseError>)
        requires
            old(self).wf(),
        ensures
            final(self).wf(),
            final(self).src() == old(self).src(),
            ({
                let j = ws_prefix_end(final(self).src(), old(self).at());
                if j < final(self).src().len() && final(self).src()[j] == expected {
                    r is Ok && final(self).at() == j + 1
                } else {
                    &&& r matches Err(e)
                    &&& e.pos == byte_pos(final(self).src(), j)
                    &&& e.kind == ParseErrorKind::ExpectedChar(expected)
                    &&& final(self).at() == j
                }
            }),
            old(self).at() <= final(self).at(),
            r matches Err(e) ==> e.pos <= byte_pos(final(self).src(), final(self).src().len() as int),
    {
        self.skip_ws();
        if self.i < self.chars.len() && self.chars[self.i] == expected {
            self.i += 1;
            Ok(())
        } else {
            Err(self.err_at(self.i, ParseErrorKind::ExpectedChar(expected)))
        }
    }

    /// Skips whitespace, then takes everything up to the next whitespace or
    /// parenthesis as a bare value; possibly empty.
    pub fn parse_bare_value(&mut self) -> (r: String)
        requires
            old(self).wf(),
        ensures
            final(self).wf(),
            final(self).src() == old(self).src(),
            ({
                let j = ws_prefix_end(final(self).src(), old(self).at());
                let b = bare_run_end(final(self).src(), j);
                r@ == final(self).src().subrange(j, b) && final(self).at() == b
            }),
            old(self).at() <= final(self).at(),
    {
        self.skip_ws();
        let ghost s = self.src();
        let j = self.i;
        let b = scan_bare(&self.chars, j);
        let mut out: Vec<char> = Vec::new();
        proof {
            assert(out@ =~= s.subrange(j as int, j as int));
        }
        let mut k: usize = j;
        while k < b
            invariant
                self.wf(),
                s == self.src(),
                self.src() == old(self).src(),
                j == ws_prefix_end(s, old(self).at()),
                b == bare_run_end(s, j as int),
                j <= k <= b <= s.len(),
                out@ == s.subrange(j as int, k as int),
            decreases b - k,
        {
            out.push(self.chars[k]);
            k += 1;
            proof {
                assert(out@ =~= s.subrange(j as int, k as int));
            }
        }
        self.i = b;
        chars_to_string(&out)
    }

    /// Skips whitespace, then reads a comparison operator, trying the
    /// two-character forms before the one-character ones.
    pub fn parse_cmp_op(&mut self) -> (r: Result<CmpOp, ParseError>)
        requires
            old(self).wf(),
        ensures
            final(self).wf(),
            final(self).src() == old(self).src(),
            ({
                let j = ws_prefix_end(final(self).src(), old(self).at());
                match spec_cmp_op(final(self).src(), j) {
                    Some((op, n)) => r == Ok::<CmpOp, ParseError>(op) && final(self).at() == n,
                    None => {
                        &&& r matches Err(e)
                        &&& e.pos == byte_pos(final(self).src(), j)
                        &&& e.kind == ParseErrorKind::ExpectedCmpOp
                        &&& final(self).at() == j
                    },
                }
            }),
            old(self).at() <= final(self).at(),
            r matches Err(e) ==> e.pos <= byte_pos(final(self).src(), final(self).src().len() as int),
    {
        self.skip_ws();
        proof {
            reveal_strlit(">=");
            reveal_strlit("<=");
            reveal_strlit(">");
            reveal_strlit("<");
            reveal_strlit("=");
            assert(seq!['>', '='] =~= ">="@);
            assert(seq!['<', '='] =~= "<="@);
            assert(seq!['>'] =~= ">"@);
            assert(seq!['<'] =~= "<"@);
            assert(seq!['='] =~= "="@);
        }
        if self.consume_op(">=") {
            return Ok(CmpOp::Gte);
        }
        if self.consume_op("<=") {
            return Ok(CmpOp::Lte);
        }
        if self.consume_op(">") {
            return Ok(CmpOp::Gt);
        }
        if self.consume_op("<") {
            return Ok(CmpOp::Lt);
        }
        if self.consume_op("=") {
            return Ok(CmpOp::Eq);
        }
        Err(self.err_at(self.i, ParseErrorKind::ExpectedCmpOp))
    }

    /// Skips whitespace, then reads a `/`-delimited regex literal and
    /// compiles it case-sensitively.
    pub fn parse_regex_literal(&mut self) -> (r: Result<CompiledRegex, ParseError>)
        requires
            old(self).wf(),
        ensures
            final(self).wf(),
            final(self).src() == old(self).src(),
            old(self).at() <= final(self).at(),
            ({
                let j = ws_prefix_end(final(self).src(), old(self).at());
                match spec_regex_lit(final(self).src(), j) {
                    PredOutcome::POk { p, next } => {
                        &&& r matches Ok(re)
                        &&& p == (SpecPredicate::PathRe {
                            ci: re.spec_ci(),
                            pat: re.spec_pattern(),
                        })
                        &&& final(self).at() == next
                    },
                    PredOutcome::PErr { pos, err } => {
                        &&& r matches Err(e)
                        &&& e.pos == pos
                        &&& e.kind.model() == err
                    },
                }
            }),
            r matches Err(e) ==> e.pos <= byte_pos(final(self).src(), final(self).src().len() as int),
    {
        self.skip_ws();
        let ghost s = self.src();
        let j = self.i;
        if j >= self.chars.len() || self.chars[j] != '/' {
            return Err(self.err_at(j, ParseErrorKind::ExpectedRegex));
        }
        self.i += 1;
        let mut pat: Vec<char> = Vec::new();
        proof {
            let sr = scan_regex(s, self.at());
            match sr {
                RegexScan::Done { pat: p2, next } => {
                    assert(pat@ + p2 =~= p2);
                },
                RegexScan::Unterminated => {},
            }
        }
        while self.i < self.chars.len()
            invariant
                self.wf(),
                s == self.src(),
                self.src() == old(self).src(),
                j == ws_prefix_end(s, old(self).at()),
                old(self).at() <= j,
                j < s.len() && s[j as int] == '/',
                j + 1 <= self.at() <= s.len(),
                ({
                    match scan_regex(s, self.at()) {
                        RegexScan::Done { pat: p2, next } => scan_regex(s, j + 1)
                            == (RegexScan::Done { pat: pat@ + p2, next }),
                        RegexScan::Unterminated => scan_regex(s, j + 1)
                            == RegexScan::Unterminated,
                    }
                }),
            decreases s.len() - self.at(),
        {
            let c = self.chars[self.i];
            if c == '/' {
                self.i += 1;
                proof {
                    assert(pat@ + Seq::<char>::empty() =~= pat@);
                }
                match compile_regex(&pat) {
                    Some(re) => {
                        return Ok(re);
                    },
                    None => {
                        let text = chars_to_string(&pat);
                        let e = self.err_at(j, ParseErrorKind::RegexCompile(text));
                        return Err(e);
                    },
                }
            }
            if c == '\\' {
                if self.i >= self.chars.len() - 1 {
                    let nlen = self.chars.len();
                    let e = self.err_at(nlen, ParseErrorKind::UnterminatedRegex);
                    return Err(e);
                }
                let c2 = self.chars[self.i + 1];
                let ghost pat0 = pat@;
                let ghost piece: Seq<char> = if c2 == '/' {
                    seq!['/']
                } else {
                    seq!['\\', c2]
                };
                if c2 == '/' {
                    pat.push('/');
                } else {
                    pat.push('\\');
                    pat.push(c2);
                }
                proof {
                    assert(pat@ =~= pat0 + piece);
                    let sr = scan_regex(s, self.at() + 2);
                    match sr {
                        RegexScan::Done { pat: p2, next } => {
                            assert((pat0 + piece) + p2 =~= pat0 + (piece + p2));
                        },
                        RegexScan::Unterminated => {},
                    }
                }
                self.i += 2;
            } else {
                let ghost pat0 = pat@;
                pat.push(c);
                proof {
                    assert(pat@ =~= pat0 + seq![c]);
                    let sr = scan_regex(s, self.at() + 1);
                    match sr {
                        RegexScan::Done { pat: p2, next } => {
                            assert((pat0 + seq![c]) + p2 =~= pat0 + (seq![c] + p2));
                        },
                        RegexScan::Unterminated => {},
                    }
                }
                self.i += 1;
            }
        }
        let nlen = self.chars.len();
        let e = self.err_at(nlen, ParseErrorKind::UnterminatedRegex);
        Err(e)
    }

    /// Parses one atomic predicate at the cursor.
    #[verifier::rlimit(60)]
    pub fn parse_predicate(&mut self) -> (r: Result<Predicate, ParseError>)
        requires
            old(self).wf(),
        ensures
            final(self).wf(),
            final(self).src() == old(self).src(),
            old(self).at() <= final(self).at(),
            ({
                match spec_parse_predicate(final(self).src(), old(self).at()) {
                    PredOutcome::POk { p, next } => {
                        &&& r matches Ok(pr)
                        &&& pr.model() == p
                        &&& final(self).at() == next
                    },
                    PredOutcome::PErr { pos, err } => {
                        &&& r matches Err(e)
                        &&& e.pos == pos
                        &&& e.kind.model() == err
                    },
                }
            }),
            r matches Err(e) ==> e.pos <= byte_pos(final(self).src(), final(self).src().len() as int),
    {
        let ghost s = self.src();
        let ghost i0 = self.at();
        self.skip_ws();
        proof {
            lemma_ws_prefix_end(s, i0);
            reveal_strlit("name");
            reveal_strlit("path");
            reveal_strlit("ext");
            reveal_strlit("size");
            assert("name"@ =~= seq!['n', 'a', 'm', 'e']);
            assert("path"@ =~= seq!['p', 'a', 't', 'h']);
            assert("ext"@ =~= seq!['e', 'x', 't']);
            assert("size"@ =~= seq!['s', 'i', 'z', 'e']);
        }
        let at_slash = self.i < self.chars.len() && self.chars[self.i] == '/';
        if at_slash {
            let re = match self.parse_regex_literal() {
                Ok(re) => re,
                Err(e) => return Err(e),
            };
            return Ok(Predicate::PathRegex(re));
        }
        if self.consume_kw("name") {
            if let Err(e) = self.expect_char(':') {
                return Err(e);
            }
            match self.parse_regex_literal() {
                Ok(re) => return Ok(Predicate::NameRegex(re)),
                Err(e) => return Err(e),
            }
        }
        if self.consume_kw("path") {
            if let Err(e) = self.expect_char(':') {
                return Err(e);
            }
            match self.parse_regex_literal() {
                Ok(re) => return Ok(Predicate::PathRegex(re)),
                Err(e) => return Err(e),
            }
        }
        if self.consume_kw("ext") {
            if let Err(e) = self.expect_char(':') {
                return Err(e);
            }
            proof {
                lemma_ws_prefix_end(s, self.at());
            }
            self.skip_ws();
            let b0 = self.i;
            let val = self.parse_bare_value();
            if val.as_str().is_empty() {
                return Err(self.err_at(b0, ParseErrorKind::EmptyExtValue));
            }
            return Ok(Predicate::ExtEq(val));
        }
        if self.consume_kw("size") {
            let op = match self.parse_cmp_op() {
                Ok(op) => op,
                Err(e) => return Err(e),
            };
            proof {
                lemma_ws_prefix_end(s, self.at());
            }
            self.skip_ws();
            let b0 = self.i;
            let val = self.parse_bare_value();
            match parse_size_bytes(val.as_str()) {
                Ok(bytes) => return Ok(Predicate::SizeCmp { op, bytes }),
                Err(se) => return Err(self.err_at(b0, ParseErrorKind::Size(se))),
            }
        }
        Err(self.err_at(self.i, ParseErrorKind::ExpectedPredicate))
    }

    /// Parses a parenthesized sub-expression or one predicate.
    pub fn parse_primary(&mut self) -> (r: Result<Expr, ParseError>)
        requires
            old(self).wf(),
        ensures
            final(self).wf(),
            final(self).src() == old(self).src(),
            old(self).at() <= final(self).at(),
            r matches Err(e) ==> e.pos <= byte_pos(final(self).src(), final(self).src().len() as int),
            ({
                let j = ws_prefix_end(final(self).src(), old(self).at());
                (j >= final(self).src().len() || final(self).src()[j] != '(') ==> match spec_parse_predicate(
                    final(self).src(),
                    old(self).at(),
                ) {
                    PredOutcome::POk { p, next } => {
                        &&& r matches Ok(ex)
                        &&& ex.model() == SpecExpr::Pred(p)
                        &&& final(self).at() == next
                    },
                    PredOutcome::PErr { pos, err } => {
                        &&& r matches Err(e)
                        &&& e.pos == pos
                        &&& e.kind.model() == err
                    },
                }
            }),
        decreases self.src().len() - self.at(), 0int,
    {
        let ghost s = self.src();
        let ghost i0 = self.at();
        self.skip_ws();
        proof {
            lemma_ws_prefix_end(s, i0);
            reveal_strlit("(");
            reveal_strlit(")");
            assert("("@ =~= seq!['(']);
            assert(")"@ =~= seq![')']);
        }
        if self.consume_op("(") {
            proof {
                assert(s.subrange(ws_prefix_end(s, i0), ws_prefix_end(s, i0) + 1)[0] == s[
                    ws_prefix_end(s, i0)
                ]);
                assert(s[ws_prefix_end(s, i0)] == '(');
            }
            let inner = match self.parse_or() {
                Ok(x) => x,
                Err(e) => return Err(e),
            };
            self.skip_ws();
            proof {
                reveal_strlit(")");
                assert(")"@ =~= seq![')']);
            }
            if !self.consume_op(")") {
                return Err(self.err_at(self.i, ParseErrorKind::ExpectedChar(')')));
            }
            return Ok(inner);
        }
        proof {
            if ws_prefix_end(s, i0) < s.len() {
                assert(!has_at(s, ws_prefix_end(s, i0), seq!['(']));
                assert(s[ws_prefix_end(s, i0)] != '(') by {
                    if s[ws_prefix_end(s, i0)] == '(' {
                        assert(s.subrange(
                            ws_prefix_end(s, i0),
                            ws_prefix_end(s, i0) + 1,
                        ) =~= seq!['(']);
                    }
                }
            }
        }
        match self.parse_predicate() {
            Ok(p) => Ok(Expr::Pred(p)),
            Err(e) => Err(e),
        }
    }

    /// Parses a chain of `NOT`/`!` prefixes and a primary. Without such a
    /// prefix or a parenthesis it reads exactly one predicate.
    pub fn parse_unary(&mut self) -> (r: Result<Expr, ParseError>)
        requires
            old(self).wf(),
        ensures
            final(self).wf(),
            final(self).src() == old(self).src(),
            old(self).at() <= final(self).at(),
            r matches Err(e) ==> e.pos <= byte_pos(final(self).src(), final(self).src().len() as int),
            ({
                let s = final(self).src();
                plain_predicate_ahead(s, old(self).at()) ==> match spec_parse_predicate(
                    s,
                    old(self).at(),
                ) {
                    PredOutcome::POk { p, next } => {
                        &&& r matches Ok(ex)
                        &&& ex.model() == SpecExpr::Pred(p)
                        &&& final(self).at() == next
                    },
                    PredOutcome::PErr { pos, err } => {
                        &&& r matches Err(e)
                        &&& e.pos == pos
                        &&& e.kind.model() == err
                    },
                }
            }),
        decreases self.src().len() - self.at(), 1int,
    {
        let ghost s = self.src();
        let ghost i0 = self.at();
        self.skip_ws();
        proof {
            lemma_ws_prefix_end(s, i0);
            reveal_strlit("!");
            reveal_strlit("NOT");
            assert("!"@ =~= seq!['!']);
            assert("NOT"@ =~= seq!['N', 'O', 'T']);
        }
        if self.consume_op("!") {
            let inner = match self.parse_unary() {
                Ok(x) => x,
                Err(e) => return Err(e),
            };
            return Ok(Expr::Not(Box::new(inner)));
        }
        if self.consume_kw("NOT") {
            let inner = match self.parse_unary() {
                Ok(x) => x,
                Err(e) => return Err(e),
            };
            return Ok(Expr::Not(Box::new(inner)));
        }
        self.parse_primary()
    }

    /// Parses a left-associative chain of `AND`/`&&`.
    #[verifier::rlimit(80)]
    pub fn parse_and(&mut self) -> (r: Result<Expr, ParseError>)
        requires
            old(self).wf(),
        ensures
            final(self).wf(),
            final(self).src() == old(self).src(),
            old(self).at() <= final(self).at(),
            r matches Err(e) ==> e.pos <= byte_pos(final(self).src(), final(self).src().len() as int),
            ({
                let s = final(self).src();
                plain_predicate_ahead(s, old(self).at()) ==> match spec_parse_predicate(
                    s,
                    old(self).at(),
                ) {
                    PredOutcome::POk { p, next } => !and_token_at(s, ws_prefix_end(s, next)) ==> {
                        &&& 0 <= next <= s.len()
                        &&& r matches Ok(ex)
                        &&& ex.model() == SpecExpr::Pred(p)
                        &&& final(self).at() == ws_prefix_end(s, next)
                    },
                    PredOutcome::PErr { pos, err } => {
                        &&& r matches Err(e)
                        &&& e.pos == pos
                        &&& e.kind.model() == err
                    },
                }
            }),
        decreases self.src().len() - self.at(), 2int,
    {
        let ghost s = self.src();
        let ghost i0 = self.at();
        let mut left = match self.parse_unary() {
            Ok(x) => x,
            Err(e) => return Err(e),
        };
        let mut keep: bool = true;
        while keep
            invariant
                self.wf(),
                s == self.src(),
                self.src() == old(self).src(),
                i0 == old(self).at(),
                old(self).at() <= self.at(),
                plain_predicate_ahead(s, i0) ==> match spec_parse_predicate(s, i0) {
                    PredOutcome::POk { p, next } => !and_token_at(s, ws_prefix_end(s, next))
                        ==> left.model() == SpecExpr::Pred(p) && self.at() == (if keep {
                        next
                    } else {
                        ws_prefix_end(s, next)
                    }),
                    PredOutcome::PErr { pos, err } => false,
                },
            decreases s.len() - self.at() + (if keep {
                1int
            } else {
                0int
            }),
        {
            self.skip_ws();
            proof {
                reveal_strlit("&&");
                reveal_strlit("AND");
                assert("&&"@ =~= seq!['&', '&']);
                assert("AND"@ =~= seq!['A', 'N', 'D']);
                if plain_predicate_ahead(s, i0) {
                    match spec_parse_predicate(s, i0) {
                        PredOutcome::POk { p, next } => {
                            if 0 <= next <= s.len() {
                                lemma_ws_prefix_end(s, next);
                            }
                        },
                        PredOutcome::PErr { pos, err } => {},
                    }
                }
            }
            if self.consume_op("&&") || self.consume_kw("AND") {
                let right = match self.parse_unary() {
                    Ok(x) => x,
                    Err(e) => return Err(e),
                };
                left = Expr::And(Box::new(left), Box::new(right));
            } else {
                keep = false;
            }
        }
        Ok(left)
    }

    /// Parses a left-associative chain of `OR`/`||`.
    #[verifier::rlimit(80)]
    pub fn parse_or(&mut self) -> (r: Result<Expr, ParseError>)
        requires
            old(self).wf(),
        ensures
            final(self).wf(),
            final(self).src() == old(self).src(),
            old(self).at() <= final(self).at(),
            r matches Err(e) ==> e.pos <= byte_pos(final(self).src(), final(self).src().len() as int),
            ({
                let s = final(self).src();
                plain_predicate_ahead(s, old(self).at()) ==> match spec_parse_predicate(
                    s,
                    old(self).at(),
                ) {
                    PredOutcome::POk { p, next } => (!and_token_at(s, ws_prefix_end(s, next))
                        && !or_token_at(s, ws_prefix_end(s, next))) ==> {
                        &&& 0 <= next <= s.len()
                        &&& r matches Ok(ex)
                        &&& ex.model() == SpecExpr::Pred(p)
                        &&& final(self).at() == ws_prefix_end(s, next)
                    },
                    PredOutcome::PErr { pos, err } => {
                        &&& r matches Err(e)
                        &&& e.pos == pos
                        &&& e.kind.model() == err
                    },
                }
            }),
        decreases self.src().len() - self.at(), 3int,
    {
        let ghost s = self.src();
        let ghost i0 = self.at();
        let mut left = match self.parse_and() {
            Ok(x) => x,
            Err(e) => {
                proof {
                    if plain_predicate_ahead(s, i0) {
                        match spec_parse_predicate(s, i0) {
                            PredOutcome::POk { p, next } => {},
                            PredOutcome::PErr { pos, err } => {
                                assert(e.pos == pos && e.kind.model() == err);
                            },
                        }
                    }
                }
                return Err(e);
            },
        };
        let mut keep: bool = true;
        while keep
            invariant
                self.wf(),
                s == self.src(),
                self.src() == old(self).src(),
                i0 == old(self).at(),
                old(self).at() <= self.at(),
                plain_predicate_ahead(s, i0) ==> match spec_parse_predicate(s, i0) {
                    PredOutcome::POk { p, next } => (!and_token_at(s, ws_prefix_end(s, next))
                        && !or_token_at(s, ws_prefix_end(s, next))) ==> 0 <= next <= s.len()
                        && left.model() == SpecExpr::Pred(p) && self.at() == ws_prefix_end(
                        s,
                        next,
                    ),
                    PredOutcome::PErr { pos, err } => false,
                },
            decreases s.len() - self.at() + (if keep {
                1int
            } else {
                0int
            }),
        {
            self.skip_ws();
            proof {
                reveal_strlit("||");
                reveal_strlit("OR");
                assert("||"@ =~= seq!['|', '|']);
                assert("OR"@ =~= seq!['O', 'R']);
                if plain_predicate_ahead(s, i0) {
                    match spec_parse_predicate(s, i0) {
                        PredOutcome::POk { p, next } => {
                            if 0 <= next <= s.len() {
                                lemma_ws_prefix_end(s, next);
                            }
                        },
                        PredOutcome::PErr { pos, err } => {},
                    }
                }
            }
            if self.consume_op("||") || self.consume_kw("OR") {
                let right = match self.parse_and() {
                    Ok(x) => x,
                    Err(e) => return Err(e),
                };
                left = Expr::Or(Box::new(left), Box::new(right));
            } else {
                keep = false;
            }
        }
        Ok(left)
    }

    /// Parses the whole query: one expression, with nothing but whitespace
    /// after it; leftover input is an error at its byte offset. A query that
    /// is one plain predicate yields exactly that predicate, the predicate
    /// grammar's error, or a trailing-input error at what follows it.
    pub fn parse(self) -> (r: Result<Expr, ParseError>)
        requires
            self.wf(),
        ensures
            r matches Err(e) ==> e.pos <= byte_pos(self.src(), self.src().len() as int),
            ({
                let s = self.src();
                plain_predicate_ahead(s, self.at()) ==> match spec_parse_predicate(
                    s,
                    self.at(),
                ) {
                    PredOutcome::POk { p, next } => (!and_token_at(s, ws_prefix_end(s, next))
                        && !or_token_at(s, ws_prefix_end(s, next))) ==> {
                        let j2 = ws_prefix_end(s, next);
                        if j2 == s.len() {
                            r matches Ok(ex) && ex.model() == SpecExpr::Pred(p)
                        } else {
                            &&& r matches Err(e)
                            &&& e.pos == byte_pos(s, j2)
                            &&& e.kind.model() == SpecParseErr::TrailingInput
                        }
                    },
                    PredOutcome::PErr { pos, err } => {
                        &&& r matches Err(e)
                        &&& e.pos == pos
                        &&& e.kind.model() == err
                    },
                }
            }),
    {
        let ghost s = self.src();
        let ghost i0 = self.at();
        let mut p = self;
        let expr = match p.parse_or() {
            Ok(x) => x,
            Err(e) => return Err(e),
        };
        proof {
            if plain_predicate_ahead(s, i0) {
                match spec_parse_predicate(s, i0) {
                    PredOutcome::POk { p: sp, next } => {
                        if 0 <= next <= s.len() {
                            lemma_ws_prefix_end(s, next);
                        }
                    },
                    PredOutcome::PErr { pos, err } => {},
                }
            }
        }
        p.skip_ws();
        if p.i != p.chars.len() {
            return Err(p.err_at(p.i, ParseErrorKind::TrailingInput));
        }
        Ok(expr)
    }
}

} // verus!
