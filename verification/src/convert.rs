//! The converter pipeline: a chain of named transforms applied to a value.
//!
//! Floating-point arithmetic is not done here. A floating-point number is
//! held as the bit pattern of an IEEE 754 single, and each step that needs
//! arithmetic on one is handed out as a [`FloatOp`]. The caller works it out
//! and supplies the answers, in order, as a list; a chain is run against
//! that list and stops where the list ends.

use vstd::prelude::*;
use vstd::string::StrSliceExecFns;
use crate::text::{
    decimal, has_prefix, parse_u32, parse_usize, same_text, segments, split_chain, starts_with,
    texts,
};

verus! {

/// A value on its way through the pipeline.
#[derive(Clone, Debug, PartialEq, Eq)]
pub enum MibType {
    /// The bit pattern of an IEEE 754 single.
    Float(u32),
    Integer(u32),
    String(String),
}

pub enum MibView {
    Float(u32),
    Integer(u32),
    String(Seq<char>),
}

impl View for MibType {
    type V = MibView;

    open spec fn view(&self) -> MibView {
        match *self {
            MibType::Float(b) => MibView::Float(b),
            MibType::Integer(i) => MibView::Integer(i),
            MibType::String(s) => MibView::String(s@),
        }
    }
}

/// A piece of floating-point arithmetic that a chain needs done. The answer
/// is a number of 32 bits, or nothing where the text is no number.
#[derive(Clone, Debug, PartialEq, Eq)]
pub enum FloatOp {
    /// Read the text as a float; the answer is its bit pattern.
    Parse(String),
    /// Read the text as a float; the answer itself is not used.
    Check(String),
    /// The float nearest to the integer; the answer is its bit pattern.
    Widen(u32),
    /// The float with this bit pattern, rounded to the nearest integer,
    /// ties away from zero; the answer is that integer.
    Round(u32),
    /// The float with this bit pattern times the factor that the text
    /// denotes; the answer is the product's bit pattern.
    Scale(u32, String),
    /// The integer, as a float, times the factor that the text denotes; the
    /// answer is the product's bit pattern.
    ScaleInteger(u32, String),
}

pub enum FloatOpView {
    Parse(Seq<char>),
    Check(Seq<char>),
    Widen(u32),
    Round(u32),
    Scale(u32, Seq<char>),
    ScaleInteger(u32, Seq<char>),
}

impl View for FloatOp {
    type V = FloatOpView;

    open spec fn view(&self) -> FloatOpView {
        match *self {
            FloatOp::Parse(s) => FloatOpView::Parse(s@),
            FloatOp::Check(s) => FloatOpView::Check(s@),
            FloatOp::Widen(i) => FloatOpView::Widen(i),
            FloatOp::Round(b) => FloatOpView::Round(b),
            FloatOp::Scale(b, s) => FloatOpView::Scale(b, s@),
            FloatOp::ScaleInteger(i, s) => FloatOpView::ScaleInteger(i, s@),
        }
    }
}

/// Why a chain could not be applied.
#[derive(Clone, Debug, PartialEq, Eq)]
pub enum ConvertError {
    /// The chain names a transform that does not exist.
    UnknownConverter(String),
    /// The argument of a transform is missing, malformed or out of range.
    BadArgument,
    /// The value is no number where one is needed.
    NumberFormat,
    /// More characters are to be trimmed than the text has.
    TrimTooLong,
}

pub enum ConvertErrorView {
    UnknownConverter(Seq<char>),
    BadArgument,
    NumberFormat,
    TrimTooLong,
}

impl View for ConvertError {
    type V = ConvertErrorView;

    open spec fn view(&self) -> ConvertErrorView {
        match *self {
            ConvertError::UnknownConverter(s) => ConvertErrorView::UnknownConverter(s@),
            ConvertError::BadArgument => ConvertErrorView::BadArgument,
            ConvertError::NumberFormat => ConvertErrorView::NumberFormat,
            ConvertError::TrimTooLong => ConvertErrorView::TrimTooLong,
        }
    }
}

/// The transforms.
#[derive(Clone, Copy, Debug, PartialEq, Eq)]
pub enum Kind {
    CastFloat,
    CastInt,
    MultiplyBy,
    TrimRight,
    Trim,
}

/// `seg` is a call of the transform `name`: the name, an opening bracket,
/// an argument, which may be empty, and a closing bracket at the end.
pub open spec fn is_call(seg: Seq<char>, name: Seq<char>) -> bool {
    &&& seg.len() >= name.len() + 2
    &&& starts_with(seg, name)
    &&& seg[name.len() as int] == '('
    &&& seg.last() == ')'
}

/// The transform that a segment of a chain names: one of the two casts,
/// or a call of one of the three transforms that take an argument.
pub open spec fn recognise(seg: Seq<char>) -> Option<Kind> {
    if seg == "cast_float"@ {
        Some(Kind::CastFloat)
    } else if seg == "cast_int"@ {
        Some(Kind::CastInt)
    } else if is_call(seg, "multiply_by"@) {
        Some(Kind::MultiplyBy)
    } else if is_call(seg, "trim_right"@) {
        Some(Kind::TrimRight)
    } else if is_call(seg, "trim"@) {
        Some(Kind::Trim)
    } else {
        None
    }
}

/// Whether `seg` is a call of the transform `name`.
pub fn calls(seg: &str, name: &str) -> (r: bool)
    ensures
        r == is_call(seg@, name@),
{
    let n = seg.unicode_len();
    let m = name.unicode_len();
    if n < m || n - m < 2 {
        return false;
    }
    has_prefix(seg, name) && seg.get_char(m) == '(' && seg.get_char(n - 1) == ')'
}

/// The transform has an argument.
pub open spec fn takes_argument(kind: Kind) -> bool {
    kind == Kind::MultiplyBy || kind == Kind::TrimRight || kind == Kind::Trim
}

/// The length of a transform's name.
pub open spec fn name_len(kind: Kind) -> int {
    match kind {
        Kind::CastFloat => 10,
        Kind::CastInt => 8,
        Kind::MultiplyBy => 11,
        Kind::TrimRight => 10,
        Kind::Trim => 4,
    }
}

pub fn recognise_kind(seg: &str) -> (r: Option<Kind>)
    ensures
        r == recognise(seg@),
        match r {
            Some(kind) => takes_argument(kind) ==> seg@.len() >= name_len(kind) + 2,
            None => true,
        },
{
    proof {
        reveal_strlit("multiply_by");
        reveal_strlit("trim_right");
        reveal_strlit("trim");
    }
    if same_text(seg, "cast_float") {
        Some(Kind::CastFloat)
    } else if same_text(seg, "cast_int") {
        Some(Kind::CastInt)
    } else if calls(seg, "multiply_by") {
        Some(Kind::MultiplyBy)
    } else if calls(seg, "trim_right") {
        Some(Kind::TrimRight)
    } else if calls(seg, "trim") {
        Some(Kind::Trim)
    } else {
        None
    }
}

/// The argument of a call: what stands between its brackets.
pub open spec fn argument(seg: Seq<char>, kind: Kind) -> Seq<char> {
    seg.subrange(name_len(kind) + 1, seg.len() - 1)
}

pub fn argument_of<'a>(seg: &'a str, kind: Kind) -> (r: &'a str)
    requires
        takes_argument(kind),
        seg@.len() >= name_len(kind) + 2,
    ensures
        r@ == argument(seg@, kind),
{
    let skip: usize = match kind {
        Kind::CastFloat => 10,
        Kind::CastInt => 8,
        Kind::MultiplyBy => 11,
        Kind::TrimRight => 10,
        Kind::Trim => 4,
    };
    let n = seg.unicode_len();
    seg.substring_char(skip + 1, n - 1)
}

/// What one transform makes of a value.
pub enum Step {
    /// The new value.
    Value(MibView),
    /// The arithmetic that has to be done first.
    Ask(FloatOpView),
    Fail(ConvertErrorView),
}

/// What a step hands back: the view of it is a [`Step`].
pub enum Decision {
    Value(MibType),
    Ask(FloatOp),
    Fail(ConvertError),
}

impl View for Decision {
    type V = Step;

    open spec fn view(&self) -> Step {
        match *self {
            Decision::Value(v) => Step::Value(v@),
            Decision::Ask(op) => Step::Ask(op@),
            Decision::Fail(e) => Step::Fail(e@),
        }
    }
}

/// Trimming `n` characters, `n` being what `arg` denotes, from the right
/// end of `s`, and from the left end too if `both`.
pub open spec fn trim_step(s: Seq<char>, arg: Seq<char>, both: bool) -> Step {
    match decimal(arg, usize::MAX as nat) {
        None => Step::Fail(ConvertErrorView::BadArgument),
        Some(n) => {
            let lo = if both {
                n as int
            } else {
                0
            };
            if lo + n > s.len() {
                Step::Fail(ConvertErrorView::TrimTooLong)
            } else {
                Step::Value(MibView::String(s.subrange(lo, s.len() - n)))
            }
        },
    }
}

/// What the transform named by `seg` makes of `cur`.
pub open spec fn step(cur: MibView, seg: Seq<char>) -> Step {
    match recognise(seg) {
        None => Step::Fail(ConvertErrorView::UnknownConverter(seg)),
        Some(Kind::CastFloat) => match cur {
            MibView::Float(_) => Step::Value(cur),
            MibView::Integer(i) => Step::Ask(FloatOpView::Widen(i)),
            MibView::String(s) => Step::Ask(FloatOpView::Parse(s)),
        },
        Some(Kind::CastInt) => match cur {
            MibView::Float(b) => Step::Ask(FloatOpView::Round(b)),
            MibView::Integer(_) => Step::Value(cur),
            MibView::String(s) => match decimal(s, u32::MAX as nat) {
                Some(n) => Step::Value(MibView::Integer(n as u32)),
                None => Step::Fail(ConvertErrorView::NumberFormat),
            },
        },
        Some(Kind::MultiplyBy) => match cur {
            MibView::Float(b) => Step::Ask(FloatOpView::Scale(b, argument(seg, Kind::MultiplyBy))),
            MibView::Integer(i) => Step::Ask(
                FloatOpView::ScaleInteger(i, argument(seg, Kind::MultiplyBy)),
            ),
            MibView::String(_) => Step::Ask(FloatOpView::Check(argument(seg, Kind::MultiplyBy))),
        },
        Some(Kind::TrimRight) => match cur {
            MibView::String(s) => trim_step(s, argument(seg, Kind::TrimRight), false),
            _ => Step::Value(cur),
        },
        Some(Kind::Trim) => match cur {
            MibView::String(s) => trim_step(s, argument(seg, Kind::Trim), true),
            _ => Step::Value(cur),
        },
    }
}

/// The value after a piece of arithmetic has been answered with `x`.
pub open spec fn answered(cur: MibView, op: FloatOpView, x: u32) -> MibView {
    match op {
        FloatOpView::Round(_) => MibView::Integer(x),
        FloatOpView::Check(_) => cur,
        _ => MibView::Float(x),
    }
}

/// The error where a piece of arithmetic has no answer: the value is no
/// number, or the factor is none.
pub open spec fn refused(op: FloatOpView) -> ConvertErrorView {
    match op {
        FloatOpView::Parse(_) => ConvertErrorView::NumberFormat,
        FloatOpView::Widen(_) => ConvertErrorView::NumberFormat,
        FloatOpView::Round(_) => ConvertErrorView::NumberFormat,
        _ => ConvertErrorView::BadArgument,
    }
}

fn copy_value(v: &MibType) -> (r: MibType)
    ensures
        r@ == v@,
{
    match v {
        MibType::Float(b) => MibType::Float(*b),
        MibType::Integer(i) => MibType::Integer(*i),
        MibType::String(s) => MibType::String(s.clone()),
    }
}

fn trim_text(s: &str, arg: &str, both: bool) -> (d: Decision)
    ensures
        d@ == trim_step(s@, arg@, both),
{
    match parse_usize(arg) {
        None => Decision::Fail(ConvertError::BadArgument),
        Some(n) => {
            let len = s.unicode_len();
            let lo: usize = if both {
                n
            } else {
                0
            };
            if n > len || lo > len - n {
                Decision::Fail(ConvertError::TrimTooLong)
            } else {
                Decision::Value(MibType::String(s.substring_char(lo, len - n).to_owned()))
            }
        },
    }
}

/// Applies the transform that `seg` names to `cur`, as far as that can be
/// done without floating-point arithmetic.
pub fn decide(cur: &MibType, seg: &str) -> (d: Decision)
    ensures
        d@ == step(cur@, seg@),
{
    match recognise_kind(seg) {
        None => Decision::Fail(ConvertError::UnknownConverter(seg.to_owned())),
        Some(Kind::CastFloat) => match cur {
            MibType::Float(_) => Decision::Value(copy_value(cur)),
            MibType::Integer(i) => Decision::Ask(FloatOp::Widen(*i)),
            MibType::String(s) => Decision::Ask(FloatOp::Parse(s.clone())),
        },
        Some(Kind::CastInt) => match cur {
            MibType::Float(b) => Decision::Ask(FloatOp::Round(*b)),
            MibType::Integer(_) => Decision::Value(copy_value(cur)),
            MibType::String(s) => match parse_u32(s.as_str()) {
                Some(n) => Decision::Value(MibType::Integer(n)),
                None => Decision::Fail(ConvertError::NumberFormat),
            },
        },
        Some(Kind::MultiplyBy) => {
            let a = argument_of(seg, Kind::MultiplyBy);
            match cur {
                MibType::Float(b) => Decision::Ask(FloatOp::Scale(*b, a.to_owned())),
                MibType::Integer(i) => Decision::Ask(FloatOp::ScaleInteger(*i, a.to_owned())),
                MibType::String(_) => Decision::Ask(FloatOp::Check(a.to_owned())),
            }
        },
        Some(Kind::TrimRight) => match cur {
            MibType::String(s) => trim_text(s.as_str(), argument_of(seg, Kind::TrimRight), false),
            _ => Decision::Value(copy_value(cur)),
        },
        Some(Kind::Trim) => match cur {
            MibType::String(s) => trim_text(s.as_str(), argument_of(seg, Kind::Trim), true),
            _ => Decision::Value(copy_value(cur)),
        },
    }
}

/// Takes the answer `x` to the arithmetic `op` into the value.
pub fn accept(cur: MibType, op: &FloatOp, x: u32) -> (r: MibType)
    ensures
        r@ == answered(cur@, op@, x),
{
    match op {
        FloatOp::Round(_) => MibType::Integer(x),
        FloatOp::Check(_) => cur,
        _ => MibType::Float(x),
    }
}

/// The error for arithmetic that has no answer.
pub fn refuse(op: &FloatOp) -> (e: ConvertError)
    ensures
        e@ == refused(op@),
{
    match op {
        FloatOp::Parse(_) => ConvertError::NumberFormat,
        FloatOp::Widen(_) => ConvertError::NumberFormat,
        FloatOp::Round(_) => ConvertError::NumberFormat,
        _ => ConvertError::BadArgument,
    }
}

/// How far a chain got.
#[derive(Clone, Debug, PartialEq, Eq)]
pub enum Outcome {
    /// The chain is through; this is the final value.
    Value(MibType),
    /// The answers ran out where the chain needs the answer to this.
    Float(FloatOp),
}

pub enum OutcomeView {
    Value(MibView),
    Float(FloatOpView),
}

impl View for Outcome {
    type V = OutcomeView;

    open spec fn view(&self) -> OutcomeView {
        match *self {
            Outcome::Value(v) => OutcomeView::Value(v@),
            Outcome::Float(op) => OutcomeView::Float(op@),
        }
    }
}

/// Runs the segments from index `i` on, starting with the value `cur`,
/// taking the answers from index `t` on. The result holds the outcome and
/// the index of the first answer that was not used.
pub open spec fn run(
    cur: MibView,
    segs: Seq<Seq<char>>,
    i: int,
    answers: Seq<Option<u32>>,
    t: int,
) -> Result<(OutcomeView, int), ConvertErrorView>
    decreases segs.len() - i,
{
    if i < 0 || i >= segs.len() {
        Ok((OutcomeView::Value(cur), t))
    } else {
        match step(cur, segs[i]) {
            Step::Fail(e) => Err(e),
            Step::Value(v) => run(v, segs, i + 1, answers, t),
            Step::Ask(op) => if t < 0 || t >= answers.len() {
                Ok((OutcomeView::Float(op), t))
            } else {
                match answers[t] {
                    None => Err(refused(op)),
                    Some(x) => run(answered(cur, op, x), segs, i + 1, answers, t + 1),
                }
            },
        }
    }
}

/// What applying the chain `converter` to `val` gives, with the answers
/// from index `used` on.
pub open spec fn chain_result(
    val: MibView,
    converter: Seq<char>,
    answers: Seq<Option<u32>>,
    used: int,
) -> Result<(OutcomeView, int), ConvertErrorView> {
    run(val, segments(converter), 0, answers, used)
}

/// Applies the chain `converter` to `val`: the transforms that its segments
/// name, from left to right, each on what the one before it gave. The
/// answers to the floating-point arithmetic on the way are taken from
/// `answers`, starting at index `used`. Returns the outcome together with
/// the index of the first answer that was not used.
pub fn convert(val: MibType, converter: &str, answers: &Vec<Option<u32>>, used: usize) -> (r:
    Result<(Outcome, usize), ConvertError>)
    ensures
        match r {
            Ok((o, u)) => chain_result(val@, converter@, answers@, used as int) == Ok::<
                (OutcomeView, int),
                ConvertErrorView,
            >((o@, u as int)),
            Err(e) => chain_result(val@, converter@, answers@, used as int) == Err::<
                (OutcomeView, int),
                ConvertErrorView,
            >(e@),
        },
{
    let segs = split_chain(converter);
    let ghost want = chain_result(val@, converter@, answers@, used as int);
    let mut current = val;
    let mut t: usize = used;
    let mut i: usize = 0;
    while i < segs.len()
        invariant
            0 <= i <= segs.len(),
            texts(segs@) == segments(converter@),
            want == chain_result(val@, converter@, answers@, used as int),
            want == run(current@, segments(converter@), i as int, answers@, t as int),
        decreases segs.len() - i,
    {
        assert(texts(segs@)[i as int] == segs@[i as int]@);
        match decide(&current, segs[i].as_str()) {
            Decision::Fail(e) => {
                return Err(e);
            },
            Decision::Value(v) => {
                current = v;
            },
            Decision::Ask(op) => {
                if t >= answers.len() {
                    return Ok((Outcome::Float(op), t));
                }
                match answers[t] {
                    None => {
                        return Err(refuse(&op));
                    },
                    Some(x) => {
                        current = accept(current, &op, x);
                        t += 1;
                    },
                }
            },
        }
        i += 1;
    }
    Ok((Outcome::Value(current), t))
}

/// The run came through to a final value.
pub open spec fn came_through(r: Result<(OutcomeView, int), ConvertErrorView>) -> bool {
    match r {
        Ok((OutcomeView::Value(_), _)) => true,
        _ => false,
    }
}

/// A run over segments of which one names no transform never comes
/// through to a value, whatever the value, the answers and the other
/// segments are.
pub proof fn lemma_unknown_segment_stops(
    cur: MibView,
    segs: Seq<Seq<char>>,
    i: int,
    answers: Seq<Option<u32>>,
    t: int,
    k: int,
)
    requires
        0 <= i <= k < segs.len(),
        recognise(segs[k]) is None,
    ensures
        !came_through(run(cur, segs, i, answers, t)),
    decreases k - i,
{
    if i < k {
        match step(cur, segs[i]) {
            Step::Fail(_) => {},
            Step::Value(v) => {
                lemma_unknown_segment_stops(v, segs, i + 1, answers, t, k);
            },
            Step::Ask(op) => {
                if 0 <= t < answers.len() && answers[t] is Some {
                    lemma_unknown_segment_stops(
                        answered(cur, op, answers[t]->0),
                        segs,
                        i + 1,
                        answers,
                        t + 1,
                        k,
                    );
                }
            },
        }
    }
}

/// A run that reaches a segment that names no transform fails there, with
/// the error that names the segment.
pub proof fn lemma_unknown_segment_is_named(
    cur: MibView,
    segs: Seq<Seq<char>>,
    k: int,
    answers: Seq<Option<u32>>,
    t: int,
)
    requires
        0 <= k < segs.len(),
        recognise(segs[k]) is None,
    ensures
        run(cur, segs, k, answers, t) == Err::<(OutcomeView, int), ConvertErrorView>(
            ConvertErrorView::UnknownConverter(segs[k]),
        ),
{
}

/// A chain comes through to a value only if each of its segments is one
/// of the two casts or a call of one of the three transforms that take an
/// argument.
pub proof fn lemma_chain_through_is_known(
    val: MibView,
    converter: Seq<char>,
    answers: Seq<Option<u32>>,
    used: int,
)
    requires
        came_through(chain_result(val, converter, answers, used)),
    ensures
        forall|k: int|
            0 <= k < segments(converter).len() ==> recognise(#[trigger] segments(converter)[k])
                is Some,
{
    assert forall|k: int| 0 <= k < segments(converter).len() implies recognise(
        #[trigger] segments(converter)[k],
    ) is Some by {
        if recognise(segments(converter)[k]) is None {
            lemma_unknown_segment_stops(val, segments(converter), 0, answers, used, k);
        }
    }
}

} // verus!
