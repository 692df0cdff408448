//! The line interpreter: fields, their commands and errors, and the parser
//! that carries the suffix from field to field.

use vstd::prelude::*;

use crate::number::{
    decimal_value, int_value, parse_decimal, parse_int, relate_decimals, relate_ints, relates,
    relates_decimals, scaled, scaled_pair,
};
use crate::text::{
    chars_of, is_space, lemma_first_unique, lemma_tokens_one, lemma_tokens_two, no_space, split_tokens, strip,
    strip_envelope, tokens, views,
};
use crate::text::{
    concat, find_char, find_operator, find_where, less, lex_less, operator, parse_quoted,
    position, same, slice, string_of, unquote,
};

verus! {

/// How deeply conditional fields may nest inside one another.
pub const MAX_DEPTH: u32 = 32;

/// A metric command produced by interpreting a line.
#[derive(Debug, PartialEq)]
pub enum Stat {
    /// Bump the counter of this name.
    Incr(String),
    /// Record a timing or average sample of this value under this name.
    Avg(String, u64),
}

/// What a `Stat` says, as values.
pub enum StatView {
    Incr(Seq<char>),
    Avg(Seq<char>, u64),
}

impl View for Stat {
    type V = StatView;

    open spec fn view(&self) -> StatView {
        match self {
            Stat::Incr(n) => StatView::Incr(n@),
            Stat::Avg(n, v) => StatView::Avg(n@, *v),
        }
    }
}

/// The branch of a conditional field inside which an error arose.
#[derive(Debug, Clone, Copy, PartialEq, Eq, Structural)]
pub enum Branch {
    If,
    Else,
}

/// Why a field gave no command.
#[derive(Debug, PartialEq)]
pub enum ErrorKind {
    /// The field is one character long.
    FieldTooShort,
    /// The field starts with none of `+ x ~ > ?`.
    UnknownFieldKind,
    /// A `~` field has no `:` before its value.
    MissingAverageValue,
    /// A `?` field does not split into two or three `;`-separated parts.
    BadConditionalArity,
    /// A predicate holds none of `<`, `>`, `=`.
    MissingOperator,
    /// A predicate compares strings, and an operand is not quoted at both ends.
    BadQuotedString,
    /// This operand of a decimal comparison is not a decimal number.
    NotAFloat(String),
    /// This operand of an integer comparison is not a 64-bit integer.
    NotAnInteger(String),
    /// Conditional fields nest deeper than `MAX_DEPTH`.
    NestingTooDeep,
}

/// What an `ErrorKind` says, as values.
pub enum KindView {
    FieldTooShort,
    UnknownFieldKind,
    MissingAverageValue,
    BadConditionalArity,
    MissingOperator,
    BadQuotedString,
    NotAFloat(Seq<char>),
    NotAnInteger(Seq<char>),
    NestingTooDeep,
}

impl View for ErrorKind {
    type V = KindView;

    open spec fn view(&self) -> KindView {
        match self {
            ErrorKind::FieldTooShort => KindView::FieldTooShort,
            ErrorKind::UnknownFieldKind => KindView::UnknownFieldKind,
            ErrorKind::MissingAverageValue => KindView::MissingAverageValue,
            ErrorKind::BadConditionalArity => KindView::BadConditionalArity,
            ErrorKind::MissingOperator => KindView::MissingOperator,
            ErrorKind::BadQuotedString => KindView::BadQuotedString,
            ErrorKind::NotAFloat(s) => KindView::NotAFloat(s@),
            ErrorKind::NotAnInteger(s) => KindView::NotAnInteger(s@),
            ErrorKind::NestingTooDeep => KindView::NestingTooDeep,
        }
    }
}

/// An error in a field: its kind, and the branches of the conditional fields
/// it arose in, innermost first.
#[derive(Debug, PartialEq)]
pub struct FieldError {
    pub kind: ErrorKind,
    pub within: Vec<Branch>,
}

/// What a `FieldError` says, as values.
pub struct ErrorView {
    pub kind: KindView,
    pub within: Seq<Branch>,
}

impl View for FieldError {
    type V = ErrorView;

    open spec fn view(&self) -> ErrorView {
        ErrorView { kind: self.kind@, within: self.within@ }
    }
}

/// The outcome of one field: a command, nothing, or an error.
pub type FieldOutcome = Result<Option<StatView>, ErrorView>;

/// What a field's result says, as values.
pub open spec fn outcome(r: Result<Option<Stat>, FieldError>) -> FieldOutcome {
    match r {
        Ok(Some(s)) => Ok(Some(s@)),
        Ok(None) => Ok(None),
        Err(e) => Err(e@),
    }
}

/// An error of this kind that arose in the field itself.
pub open spec fn fails(k: KindView) -> ErrorView {
    ErrorView { kind: k, within: seq![] }
}

/// The outcome of a branch as the outcome of the conditional field around it.
pub open spec fn in_branch(r: FieldOutcome, b: Branch) -> FieldOutcome {
    match r {
        Err(e) => Err(ErrorView { kind: e.kind, within: e.within.push(b) }),
        Ok(x) => Ok(x),
    }
}

/// The body of a `?` field split into predicate, if-field and else-field: at
/// the first `;`, and the rest at its first `;`. With one `;` the else-field is
/// empty; with none there is no split.
pub open spec fn split_conditional(b: Seq<char>) -> Option<(Seq<char>, Seq<char>, Seq<char>)> {
    match find_char(b, ';') {
        Some(p) => {
            let rest = b.subrange(p + 1, b.len() as int);
            match find_char(rest, ';') {
                Some(q) => Some(
                    (b.subrange(0, p), rest.subrange(0, q), rest.subrange(q + 1, rest.len() as int)),
                ),
                None => Some((b.subrange(0, p), rest, seq![])),
            }
        },
        None => None,
    }
}

/// `a op b` between two strings, in lexicographic order of code points.
pub open spec fn relates_strings(op: char, a: Seq<char>, b: Seq<char>) -> bool {
    if op == '<' {
        lex_less(a, b)
    } else if op == '>' {
        lex_less(b, a)
    } else {
        a == b
    }
}

/// Whether the predicate `p` holds. It is split at its first operator into
/// `l op r`; the comparison is between strings when either side holds a
/// quote, else between decimal numbers when either side holds a point, else
/// between 64-bit integers.
pub open spec fn predicate_value(p: Seq<char>) -> Result<bool, KindView> {
    match find_where(p, operator()) {
        None => Err(KindView::MissingOperator),
        Some(i) => {
            let l = p.subrange(0, i);
            let op = p[i];
            let r = p.subrange(i + 1, p.len() as int);
            if l.contains('\'') || r.contains('\'') {
                match (unquote(l), unquote(r)) {
                    (Some(a), Some(b)) => Ok(relates_strings(op, a, b)),
                    _ => Err(KindView::BadQuotedString),
                }
            } else if l.contains('.') || r.contains('.') {
                match (decimal_value(l), decimal_value(r)) {
                    (Some(a), Some(b)) => Ok(relates_decimals(op, a, b)),
                    (None, _) => Err(KindView::NotAFloat(l)),
                    (_, None) => Err(KindView::NotAFloat(r)),
                }
            } else {
                match (int_value(l), int_value(r)) {
                    (Some(a), Some(b)) => Ok(relates(op, a, b)),
                    (None, _) => Err(KindView::NotAnInteger(l)),
                    (_, None) => Err(KindView::NotAnInteger(r)),
                }
            }
        },
    }
}

/// The outcome of the field `f` with the current suffix `suffix`, at nesting
/// depth `depth`, and the suffix after it.
pub open spec fn eval_field(f: Seq<char>, suffix: Seq<char>, depth: nat) -> (
    FieldOutcome,
    Seq<char>,
)
    decreases f.len(),
{
    if f.len() == 0 {
        (Ok(None), suffix)
    } else if f.len() < 2 {
        (Err(fails(KindView::FieldTooShort)), suffix)
    } else if f[0] == '+' {
        (Ok(Some(StatView::Incr(f.drop_first() + suffix))), suffix)
    } else if f[0] == 'x' {
        (Ok(Some(StatView::Incr(seq![f[1], 'x', 'x'] + suffix))), suffix)
    } else if f[0] == '~' {
        match scaled_pair(f.drop_first()) {
            Some((key, v)) => (Ok(Some(StatView::Avg(key + suffix, v as u64))), suffix),
            None => (Err(fails(KindView::MissingAverageValue)), suffix),
        }
    } else if f[0] == '>' {
        (Ok(None), f.drop_first())
    } else if f[0] == '?' {
        if depth >= MAX_DEPTH {
            (Err(fails(KindView::NestingTooDeep)), suffix)
        } else {
            match split_conditional(f.drop_first()) {
                None => (Err(fails(KindView::BadConditionalArity)), suffix),
                Some((p, yes, no)) => match predicate_value(p) {
                    Err(k) => (Err(fails(k)), suffix),
                    Ok(true) => {
                        let (r, s) = eval_field(yes, suffix, depth + 1);
                        (in_branch(r, Branch::If), s)
                    },
                    Ok(false) => {
                        let (r, s) = eval_field(no, suffix, depth + 1);
                        (in_branch(r, Branch::Else), s)
                    },
                },
            }
        }
    } else {
        (Err(fails(KindView::UnknownFieldKind)), suffix)
    }
}

/// What a line gave: its commands, its errors with the field each arose in,
/// and the suffix at its end.
pub struct LineView {
    pub stats: Seq<StatView>,
    pub errors: Seq<(Seq<char>, ErrorView)>,
    pub suffix: Seq<char>,
}

/// The fields `fs` interpreted in order, starting from the suffix `suffix`.
pub open spec fn eval_fields(fs: Seq<Seq<char>>, suffix: Seq<char>) -> LineView
    decreases fs.len(),
{
    if fs.len() == 0 {
        LineView { stats: seq![], errors: seq![], suffix }
    } else {
        let before = eval_fields(fs.drop_last(), suffix);
        let (r, s) = eval_field(fs.last(), before.suffix, 0);
        match r {
            Ok(Some(st)) => LineView { stats: before.stats.push(st), errors: before.errors, suffix: s },
            Ok(None) => LineView { stats: before.stats, errors: before.errors, suffix: s },
            Err(e) => LineView {
                stats: before.stats,
                errors: before.errors.push((fs.last(), e)),
                suffix: s,
            },
        }
    }
}

/// A line interpreted: its envelope stripped, its tokens interpreted in order
/// from an empty suffix.
pub open spec fn interpret(line: Seq<char>) -> LineView {
    eval_fields(tokens(strip_envelope(line)), seq![])
}

/// The views of a sequence of commands.
pub open spec fn stat_views(v: Seq<Stat>) -> Seq<StatView> {
    v.map_values(|s: Stat| s@)
}

/// The views of a sequence of errors, each with the field it arose in.
pub open spec fn report_views(v: Seq<(String, FieldError)>) -> Seq<(Seq<char>, ErrorView)> {
    v.map_values(|p: (String, FieldError)| (p.0@, p.1@))
}

/// A line that is a single `+` field, with no suffix set before it, gives
/// exactly one command: an increment of the name after the `+`.
pub proof fn lemma_increment_alone(name: Seq<char>)
    requires
        name.len() > 0,
        no_space(name),
    ensures
        interpret(seq!['+'] + name).stats == seq![StatView::Incr(name)],
        interpret(seq!['+'] + name).errors.len() == 0,
{
    let w = seq!['+'] + name;
    assert(!is_space('+'));
    assert(no_space(w)) by {
        assert forall|i: int| 0 <= i < w.len() implies !is_space(#[trigger] w[i]) by {
            if i > 0 {
                assert(w[i] == name[i - 1]);
            }
        }
    }
    lemma_tokens_one(w);
    assert(strip_envelope(w) == w);
    assert(seq![w].drop_last() =~= Seq::<Seq<char>>::empty());
    assert(w.drop_first() + seq![] =~= name);
    let empty = eval_fields(Seq::<Seq<char>>::empty(), seq![]);
    assert(empty.stats.len() == 0 && empty.errors.len() == 0 && empty.suffix.len() == 0);
    assert(eval_field(w, empty.suffix, 0).0 == Ok::<Option<StatView>, ErrorView>(
        Some(StatView::Incr(name)),
    ));
    assert(Seq::<StatView>::empty().push(StatView::Incr(name)) =~= seq![StatView::Incr(name)]);
    assert(eval_fields(seq![w], seq![]).stats =~= seq![StatView::Incr(name)]);
}

/// A `>` field sets the suffix for the fields after it: `>SUF +NAME` gives
/// exactly an increment of `NAME` followed by `SUF`.
pub proof fn lemma_suffix_applies(suf: Seq<char>, name: Seq<char>)
    requires
        suf.len() > 0,
        name.len() > 0,
        no_space(suf),
        no_space(name),
    ensures
        interpret(seq!['>'] + suf + seq![' '] + (seq!['+'] + name)).stats == seq![
            StatView::Incr(name + suf),
        ],
        interpret(seq!['>'] + suf + seq![' '] + (seq!['+'] + name)).errors.len() == 0,
{
    let a = seq!['>'] + suf;
    let b = seq!['+'] + name;
    assert(!is_space('>'));
    assert(!is_space('+'));
    assert(no_space(a)) by {
        assert forall|i: int| 0 <= i < a.len() implies !is_space(#[trigger] a[i]) by {
            if i > 0 {
                assert(a[i] == suf[i - 1]);
            }
        }
    }
    assert(no_space(b)) by {
        assert forall|i: int| 0 <= i < b.len() implies !is_space(#[trigger] b[i]) by {
            if i > 0 {
                assert(b[i] == name[i - 1]);
            }
        }
    }
    lemma_tokens_two(a, b);
    let line = a + seq![' '] + b;
    assert(line[0] == '>');
    assert(strip_envelope(line) == line);
    let fs = seq![a, b];
    assert(fs.drop_last() =~= seq![a]);
    assert(seq![a].drop_last() =~= Seq::<Seq<char>>::empty());
    assert(a.drop_first() =~= suf);
    assert(b.drop_first() =~= name);
    let empty = eval_fields(Seq::<Seq<char>>::empty(), seq![]);
    assert(empty.stats.len() == 0 && empty.errors.len() == 0 && empty.suffix.len() == 0);
    assert(eval_field(a, empty.suffix, 0) == (Ok::<Option<StatView>, ErrorView>(None), suf));
    let first = eval_fields(seq![a], seq![]);
    assert(first.stats.len() == 0 && first.errors.len() == 0 && first.suffix == suf);
    assert(eval_field(b, suf, 0).0 == Ok::<Option<StatView>, ErrorView>(
        Some(StatView::Incr(name + suf)),
    ));
    assert(Seq::<StatView>::empty().push(StatView::Incr(name + suf)) =~= seq![
        StatView::Incr(name + suf),
    ]);
}

/// A field that starts with `x` counts the class of its second character
/// only: `x` followed by `c` and anything else, alone on a line, gives
/// exactly an increment of `c` followed by `xx`.
pub proof fn lemma_status_class(c: char, rest: Seq<char>)
    requires
        !is_space(c),
        no_space(rest),
    ensures
        interpret(seq!['x', c] + rest).stats == seq![StatView::Incr(seq![c, 'x', 'x'])],
        interpret(seq!['x', c] + rest).errors.len() == 0,
{
    let w = seq!['x', c] + rest;
    assert(!is_space('x'));
    assert(no_space(w)) by {
        assert forall|i: int| 0 <= i < w.len() implies !is_space(#[trigger] w[i]) by {
            if i > 1 {
                assert(w[i] == rest[i - 2]);
            }
        }
    }
    lemma_tokens_one(w);
    assert(strip_envelope(w) == w);
    assert(seq![w].drop_last() =~= Seq::<Seq<char>>::empty());
    assert(seq![c, 'x', 'x'] + seq![] =~= seq![c, 'x', 'x']);
    assert(w[0] == 'x' && w[1] == c);
    let empty = eval_fields(Seq::<Seq<char>>::empty(), seq![]);
    assert(empty.stats.len() == 0 && empty.errors.len() == 0 && empty.suffix.len() == 0);
    assert(eval_field(w, empty.suffix, 0).0 == Ok::<Option<StatView>, ErrorView>(
        Some(StatView::Incr(seq![c, 'x', 'x'])),
    ));
    assert(Seq::<StatView>::empty().push(StatView::Incr(seq![c, 'x', 'x'])) =~= seq![
        StatView::Incr(seq![c, 'x', 'x']),
    ]);
}

/// Strings are compared only when both operands are quoted: a quoted left
/// operand against a right operand without any quote is an error.
pub proof fn lemma_mixed_quotes(a: Seq<char>, op: char, r: Seq<char>)
    requires
        forall|i: int| 0 <= i < a.len() ==> !operator()(#[trigger] a[i]),
        operator()(op),
        !r.contains('\''),
    ensures
        predicate_value(seq!['\''] + a + seq!['\''] + seq![op] + r) == Err::<bool, KindView>(
            KindView::BadQuotedString,
        ),
{
    let l = seq!['\''] + a + seq!['\''];
    let p = l + seq![op] + r;
    let k = l.len() as int;
    assert forall|j: int| 0 <= j < k implies !operator()(#[trigger] p[j]) by {
        if 0 < j < k - 1 {
            assert(p[j] == a[j - 1]);
        }
    }
    assert(p[k] == op);
    lemma_first_unique(p, operator(), k);
    assert(p.subrange(0, k) =~= l);
    assert(p.subrange(k + 1, p.len() as int) =~= r);
    assert(l[0] == '\'');
    assert(l.contains('\''));
    if r.len() >= 2 {
        assert(r[0] != '\'');
    }
    assert(unquote(r) is None);
}

/// What the result of deciding a predicate says, as values.
pub open spec fn decision(r: Result<bool, ErrorKind>) -> Result<bool, KindView> {
    match r {
        Ok(b) => Ok(b),
        Err(k) => Err(k@),
    }
}

/// Whether the predicate `p` holds, as `predicate_value` says.
pub fn decide(p: &[char]) -> (r: Result<bool, ErrorKind>)
    ensures
        decision(r) == predicate_value(p@),
{
    let n = p.len();
    let i = match find_operator(p) {
        Some(i) => i,
        None => {
            return Err(ErrorKind::MissingOperator);
        },
    };
    let l = slice(p, 0, i);
    let op = p[i];
    let r = slice(p, i + 1, n);
    let quoted = position(l.as_slice(), '\'').is_some() || position(r.as_slice(), '\'').is_some();
    let point = position(l.as_slice(), '.').is_some() || position(r.as_slice(), '.').is_some();
    if quoted {
        match (parse_quoted(l.as_slice()), parse_quoted(r.as_slice())) {
            (Some(a), Some(b)) => {
                if op == '<' {
                    Ok(less(a.as_slice(), b.as_slice()))
                } else if op == '>' {
                    Ok(less(b.as_slice(), a.as_slice()))
                } else {
                    Ok(same(a.as_slice(), b.as_slice()))
                }
            },
            _ => Err(ErrorKind::BadQuotedString),
        }
    } else if point {
        match parse_decimal(l.as_slice()) {
            None => Err(ErrorKind::NotAFloat(string_of(l.as_slice()))),
            Some(a) => match parse_decimal(r.as_slice()) {
                None => Err(ErrorKind::NotAFloat(string_of(r.as_slice()))),
                Some(b) => Ok(relate_decimals(op, a, b)),
            },
        }
    } else {
        match parse_int(l.as_slice()) {
            None => Err(ErrorKind::NotAnInteger(string_of(l.as_slice()))),
            Some(a) => match parse_int(r.as_slice()) {
                None => Err(ErrorKind::NotAnInteger(string_of(r.as_slice()))),
                Some(b) => Ok(relate_ints(op, a, b)),
            },
        }
    }
}

/// An error of kind `k` in the field itself.
fn fail(k: ErrorKind) -> (r: Result<Option<Stat>, FieldError>)
    ensures
        outcome(r) == Err::<Option<StatView>, ErrorView>(fails(k@)),
{
    let within: Vec<Branch> = Vec::new();
    Err(FieldError { kind: k, within })
}

/// The result of a branch as the result of the conditional field around it.
fn wrap(r: Result<Option<Stat>, FieldError>, b: Branch) -> (w: Result<Option<Stat>, FieldError>)
    ensures
        outcome(w) == in_branch(outcome(r), b),
{
    match r {
        Err(e) => {
            let mut within = e.within;
            within.push(b);
            Err(FieldError { kind: e.kind, within })
        },
        Ok(x) => Ok(x),
    }
}

/// Interprets the fields of log lines into metric commands. Between fields of
/// one line it keeps the suffix that the last `>` field set.
#[derive(Debug)]
pub struct Parser {
    suffix: Vec<char>,
}

impl View for Parser {
    type V = Seq<char>;

    /// The current suffix.
    closed spec fn view(&self) -> Seq<char> {
        self.suffix@
    }
}

impl Parser {
    /// A parser with an empty suffix.
    pub fn new() -> (p: Parser)
        ensures
            p@ == Seq::<char>::empty(),
    {
        Parser { suffix: Vec::new() }
    }

    /// The outcome of the field `f` at nesting depth `depth`, as `eval_field`
    /// says; the suffix changes as it says.
    fn eval(&mut self, f: &[char], depth: u32) -> (r: Result<Option<Stat>, FieldError>)
        requires
            depth <= MAX_DEPTH,
        ensures
            outcome(r) == eval_field(f@, old(self)@, depth as nat).0,
            final(self)@ == eval_field(f@, old(self)@, depth as nat).1,
        decreases f@.len(),
    {
        let n = f.len();
        if n == 0 {
            return Ok(None);
        }
        if n < 2 {
            return fail(ErrorKind::FieldTooShort);
        }
        let kind = f[0];
        if kind == '+' {
            let name = concat(slice(f, 1, n).as_slice(), self.suffix.as_slice());
            assert(f@.drop_first() =~= f@.subrange(1, n as int));
            Ok(Some(Stat::Incr(string_of(name.as_slice()))))
        } else if kind == 'x' {
            let class = vec![f[1], 'x', 'x'];
            let name = concat(class.as_slice(), self.suffix.as_slice());
            assert(class@ =~= seq![f@[1], 'x', 'x']);
            Ok(Some(Stat::Incr(string_of(name.as_slice()))))
        } else if kind == '~' {
            let body = slice(f, 1, n);
            assert(f@.drop_first() =~= body@);
            match scaled(body.as_slice()) {
                Some((key, v)) => {
                    let name = concat(key.as_slice(), self.suffix.as_slice());
                    Ok(Some(Stat::Avg(string_of(name.as_slice()), v)))
                },
                None => fail(ErrorKind::MissingAverageValue),
            }
        } else if kind == '>' {
            self.suffix = slice(f, 1, n);
            assert(f@.drop_first() =~= self.suffix@);
            Ok(None)
        } else if kind == '?' {
            if depth >= MAX_DEPTH {
                return fail(ErrorKind::NestingTooDeep);
            }
            let body = slice(f, 1, n);
            assert(f@.drop_first() =~= body@);
            let m = body.len();
            let p = match position(body.as_slice(), ';') {
                Some(p) => p,
                None => {
                    return fail(ErrorKind::BadConditionalArity);
                },
            };
            let pred = slice(body.as_slice(), 0, p);
            let rest = slice(body.as_slice(), p + 1, m);
            let k = rest.len();
            let (yes, no) = match position(rest.as_slice(), ';') {
                Some(q) => (slice(rest.as_slice(), 0, q), slice(rest.as_slice(), q + 1, k)),
                None => (rest, Vec::new()),
            };
            assert(split_conditional(body@) == Some((pred@, yes@, no@)));
            match decide(pred.as_slice()) {
                Err(e) => fail(e),
                Ok(true) => {
                    let r = self.eval(yes.as_slice(), depth + 1);
                    wrap(r, Branch::If)
                },
                Ok(false) => {
                    let r = self.eval(no.as_slice(), depth + 1);
                    wrap(r, Branch::Else)
                },
            }
        } else {
            fail(ErrorKind::UnknownFieldKind)
        }
    }

    /// The commands of `line`, and each error with the field it arose in, as
    /// `interpret` says. The suffix starts empty; afterwards it is the one at
    /// the end of the line.
    pub fn parse_line_with_errors(&mut self, line: &str) -> (r: (Vec<Stat>, Vec<(String, FieldError)>))
        ensures
            stat_views(r.0@) == interpret(line@).stats,
            report_views(r.1@) == interpret(line@).errors,
            final(self)@ == interpret(line@).suffix,
    {
        let chars = chars_of(line);
        let stripped = strip(chars.as_slice());
        let fields = split_tokens(stripped.as_slice());
        let ghost fs = tokens(strip_envelope(line@));
        self.suffix = Vec::new();
        let mut stats: Vec<Stat> = Vec::new();
        let mut errors: Vec<(String, FieldError)> = Vec::new();
        let mut i: usize = 0;
        assert(fs.subrange(0, 0) =~= Seq::<Seq<char>>::empty());
        assert(stat_views(stats@) =~= seq![]);
        assert(report_views(errors@) =~= seq![]);
        while i < fields.len()
            invariant
                views(fields@) == fs,
                i <= fields@.len(),
                stat_views(stats@) == eval_fields(fs.subrange(0, i as int), seq![]).stats,
                report_views(errors@) == eval_fields(fs.subrange(0, i as int), seq![]).errors,
                self@ == eval_fields(fs.subrange(0, i as int), seq![]).suffix,
            decreases fields@.len() - i,
        {
            let ghost before_stats = stats@;
            let ghost before_errors = errors@;
            assert(fs.subrange(0, i + 1).drop_last() =~= fs.subrange(0, i as int));
            assert(fs.subrange(0, i + 1).last() == fields@[i as int]@);
            let f = &fields[i];
            match self.eval(f.as_slice(), 0) {
                Ok(Some(st)) => {
                    stats.push(st);
                    assert(stat_views(stats@) =~= stat_views(before_stats).push(stats@.last()@));
                },
                Ok(None) => {},
                Err(e) => {
                    errors.push((string_of(f.as_slice()), e));
                    assert(report_views(errors@) =~= report_views(before_errors).push(
                        (errors@.last().0@, errors@.last().1@),
                    ));
                },
            }
            i = i + 1;
        }
        assert(fs.subrange(0, i as int) =~= fs);
        (stats, errors)
    }

    /// The commands of `line`, as `interpret` says. The suffix starts empty;
    /// afterwards it is the one at the end of the line.
    pub fn parse_line(&mut self, line: &str) -> (r: Vec<Stat>)
        ensures
            stat_views(r@) == interpret(line@).stats,
            final(self)@ == interpret(line@).suffix,
    {
        let (stats, _) = self.parse_line_with_errors(line);
        stats
    }

    /// The outcome of the single field `field` with the current suffix, as
    /// `eval_field` says; the suffix changes as it says.
    pub fn parse_field(&mut self, field: &str) -> (r: Result<Option<Stat>, FieldError>)
        ensures
            outcome(r) == eval_field(field@, old(self)@, 0).0,
            final(self)@ == eval_field(field@, old(self)@, 0).1,
    {
        let f = chars_of(field);
        self.eval(f.as_slice(), 0)
    }
}

} // verus!
