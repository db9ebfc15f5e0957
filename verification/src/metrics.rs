//! One metric group: its tree of values, the rebuild of that tree from the
//! output of the group's command, and the two lookups.
//!
//! The command is run by the caller, who hands its output over as text. The
//! floating-point arithmetic of the converter chains is the caller's too: a
//! rebuild is run against the list of answers given so far, and asks for
//! the next one where the list ends.

use vstd::prelude::*;
use crate::config::Metric;
use crate::convert::{
    chain_result, convert, lemma_unknown_segment_stops, recognise, ConvertError, ConvertErrorView, FloatOp, FloatOpView, MibType, MibView,
    Outcome, OutcomeView,
};
use crate::entry::{walk_pairs, Entry, RecursiveIterator};
use crate::json::{
    document_matches, is_plain_path, match_texts, parse_json, parsed_document, plain_path, select,
};
use crate::text::{segments, split_words, texts, words};
use crate::oid::{lemma_path_lt_total, path_copy, path_less, path_lt};
use crate::tree::{
    as_map, has_key, is_successor, lemma_sorted_unique, lookup, sorted, Entries, MibTree,
};
use crate::value::{Id, SearchRange, VarBind, WireValue, WireModel};

verus! {

/// How the value of an entry is obtained.
#[derive(Debug, PartialEq, Eq)]
pub enum Handler {
    /// The value is this text.
    Literal(String),
    /// The value is selected from the document by this path expression.
    Json(String),
    /// The entry has no value of its own.
    Skip,
}

pub open spec fn handler_of(e: Entry) -> Handler {
    match e.literal {
        Some(l) => Handler::Literal(l),
        None => match e.json_path {
            Some(j) => Handler::Json(j),
            None => Handler::Skip,
        },
    }
}

/// How the value of `entry` is obtained: a literal goes before a path
/// expression.
pub fn detect_handler(entry: &Entry) -> (h: Handler)
    ensures
        h == handler_of(*entry),
{
    if let Some(l) = &entry.literal {
        Handler::Literal(l.clone())
    } else if let Some(j) = &entry.json_path {
        Handler::Json(j.clone())
    } else {
        Handler::Skip
    }
}

/// Why a rebuild failed. Any of these leaves the tree empty.
#[derive(Debug, PartialEq, Eq)]
pub enum MibError {
    /// The output of the command is not well-formed JSON.
    Json,
    /// The path expression is none that is handed to the selector (it
    /// holds a slice, a list or a filter), or the selector refuses it.
    Path(String),
    /// The path expression matches nothing.
    NoData(String),
    /// The first match of the path expression is not a JSON string.
    NotText(String),
    /// The converter chain of an entry failed.
    Convert(ConvertError),
    /// The converted value is neither an integer nor a text.
    NotRepresentable,
    /// The command line holds no program.
    CommandMissing,
}

pub enum MibErrorView {
    Json,
    Path(Seq<char>),
    NoData(Seq<char>),
    NotText(Seq<char>),
    Convert(ConvertErrorView),
    NotRepresentable,
    CommandMissing,
}

impl View for MibError {
    type V = MibErrorView;

    open spec fn view(&self) -> MibErrorView {
        match *self {
            MibError::Json => MibErrorView::Json,
            MibError::Path(p) => MibErrorView::Path(p@),
            MibError::NoData(p) => MibErrorView::NoData(p@),
            MibError::NotText(p) => MibErrorView::NotText(p@),
            MibError::Convert(e) => MibErrorView::Convert(e@),
            MibError::NotRepresentable => MibErrorView::NotRepresentable,
            MibError::CommandMissing => MibErrorView::CommandMissing,
        }
    }
}

/// Splits a command line into the program and its arguments: the words of
/// the line, the program first. There is no quoting. A line without a word
/// is refused.
pub fn split_command(command: &str) -> (r: Result<Vec<String>, MibError>)
    ensures
        match r {
            Ok(parts) => parts@.len() > 0 && texts(parts@) == words(command@),
            Err(e) => e == MibError::CommandMissing && words(command@).len() == 0,
        },
{
    let parts = split_words(command);
    assert(texts(parts@).len() == parts@.len());
    if parts.len() == 0 {
        Err(MibError::CommandMissing)
    } else {
        Ok(parts)
    }
}

/// What an entry contributes to the tree.
pub enum Resolved {
    /// Nothing.
    Skip,
    /// This value; the number is the index of the first unused answer.
    Store(WireModel, int),
    /// Nothing yet: this arithmetic has to be answered first.
    Ask(FloatOpView),
    Fail(MibErrorView),
}

/// What resolving an entry hands back: the view of it is a [`Resolved`].
#[derive(Debug, PartialEq, Eq)]
pub enum Resolution {
    Skip,
    Store(WireValue, usize),
    Ask(FloatOp),
    Fail(MibError),
}

impl View for Resolution {
    type V = Resolved;

    open spec fn view(&self) -> Resolved {
        match *self {
            Resolution::Skip => Resolved::Skip,
            Resolution::Store(v, u) => Resolved::Store(v@, u as int),
            Resolution::Ask(op) => Resolved::Ask(op@),
            Resolution::Fail(e) => Resolved::Fail(e@),
        }
    }
}

/// An unsigned integer of 32 bits taken as a signed one with the same
/// bits: from 2^31 on it stands for the number that is 2^32 less.
pub open spec fn narrow(i: u32) -> i32 {
    if i <= 0x7fff_ffff {
        i as i32
    } else {
        (i - 0x1_0000_0000) as i32
    }
}

pub fn narrow_integer(i: u32) -> (r: i32)
    ensures
        r == narrow(i),
{
    if i <= 0x7fff_ffff {
        i as i32
    } else {
        let low: i32 = (i - 0x8000_0000) as i32;
        low + i32::MIN
    }
}

/// The end of a chain, narrowed to what the tree can hold: an integer of
/// 32 bits taken as signed, or a text.
pub open spec fn settle(r: Result<(OutcomeView, int), ConvertErrorView>) -> Resolved {
    match r {
        Err(e) => Resolved::Fail(MibErrorView::Convert(e)),
        Ok((OutcomeView::Float(op), _)) => Resolved::Ask(op),
        Ok((OutcomeView::Value(v), u)) => match v {
            MibView::Integer(i) => Resolved::Store(WireModel::Integer(narrow(i)), u),
            MibView::String(s) => Resolved::Store(WireModel::OctetString(s), u),
            MibView::Float(_) => Resolved::Fail(MibErrorView::NotRepresentable),
        },
    }
}

/// What the matches of a path expression give for an entry: the first
/// match, which must be a JSON string, put through the entry's chain.
pub open spec fn resolve_found(
    e: Entry,
    path: Seq<char>,
    found: Seq<Option<Seq<char>>>,
    answers: Seq<Option<u32>>,
    t: int,
) -> Resolved {
    if found.len() == 0 {
        Resolved::Fail(MibErrorView::NoData(path))
    } else {
        match found[0] {
            None => Resolved::Fail(MibErrorView::NotText(path)),
            Some(s) => settle(
                match e.convert {
                    Some(c) => chain_result(MibView::String(s), c@, answers, t),
                    None => Ok((OutcomeView::Value(MibView::String(s)), t)),
                },
            ),
        }
    }
}

/// What an entry contributes, given what the document holds.
pub open spec fn resolve(
    e: Entry,
    doc: Map<Seq<char>, Seq<Option<Seq<char>>>>,
    answers: Seq<Option<u32>>,
    t: int,
) -> Resolved {
    match handler_of(e) {
        Handler::Skip => Resolved::Skip,
        Handler::Literal(l) => Resolved::Store(WireModel::OctetString(l@), t),
        Handler::Json(p) => if plain_path(p@) && doc.dom().contains(p@) {
            resolve_found(e, p@, doc[p@], answers, t)
        } else {
            Resolved::Fail(MibErrorView::Path(p@))
        },
    }
}

/// Puts the first of the matches that `path` gave through the chain of
/// `entry` and narrows what comes out.
pub fn resolve_matches(
    entry: &Entry,
    path: String,
    found: &Vec<Option<String>>,
    answers: &Vec<Option<u32>>,
    t: usize,
) -> (r: Resolution)
    ensures
        r@ == resolve_found(*entry, path@, match_texts(found@), answers@, t as int),
{
    if found.len() == 0 {
        return Resolution::Fail(MibError::NoData(path));
    }
    match &found[0] {
        None => Resolution::Fail(MibError::NotText(path)),
        Some(s) => {
            let start = MibType::String(s.clone());
            let end = match &entry.convert {
                Some(c) => convert(start, c.as_str(), answers, t),
                None => Ok((Outcome::Value(start), t)),
            };
            match end {
                Err(e) => Resolution::Fail(MibError::Convert(e)),
                Ok((Outcome::Float(op), _)) => Resolution::Ask(op),
                Ok((Outcome::Value(v), u)) => match v {
                    MibType::Integer(i) => Resolution::Store(
                        WireValue::Integer(narrow_integer(i)),
                        u,
                    ),
                    MibType::String(s) => Resolution::Store(WireValue::OctetString(s), u),
                    MibType::Float(_) => Resolution::Fail(MibError::NotRepresentable),
                },
            }
        },
    }
}

/// What `entry` contributes to the tree, read from `doc`.
pub fn resolve_entry(
    entry: &Entry,
    doc: &serde_json::Value,
    answers: &Vec<Option<u32>>,
    t: usize,
) -> (r: Resolution)
    ensures
        r@ == resolve(*entry, document_matches(*doc), answers@, t as int),
{
    match detect_handler(entry) {
        Handler::Skip => Resolution::Skip,
        Handler::Literal(l) => Resolution::Store(WireValue::OctetString(l), t),
        Handler::Json(p) => {
            if !is_plain_path(p.as_str()) {
                return Resolution::Fail(MibError::Path(p));
            }
            match select(doc, p.as_str()) {
                Err(_) => Resolution::Fail(MibError::Path(p)),
                Ok(found) => resolve_matches(entry, p, &found, answers, t),
            }
        },
    }
}

/// The key under which the value of an entry is stored: the base path,
/// then the entry's own path, then the instance index 1.
pub open spec fn key_for(base: Seq<u32>, e: Entry) -> Seq<u32> {
    base + e.oid@ + seq![1u32]
}

pub fn key_of(base: &Vec<u32>, entry: &Entry) -> (k: Vec<u32>)
    ensures
        k@ == key_for(base@, *entry),
{
    let mut k = path_copy(base);
    let mut i: usize = 0;
    while i < entry.oid.len()
        invariant
            0 <= i <= entry.oid.len(),
            k@ == base@ + entry.oid@.take(i as int),
        decreases entry.oid.len() - i,
    {
        k.push(entry.oid[i]);
        assert(entry.oid@.take(i as int + 1) =~= entry.oid@.take(i as int).push(entry.oid@[i as int]));
        assert(k@ =~= base@ + entry.oid@.take(i as int + 1));
        i += 1;
    }
    assert(entry.oid@.take(entry.oid@.len() as int) =~= entry.oid@);
    k.push(1);
    assert(k@ =~= base@ + entry.oid@ + seq![1u32]);
    k
}

/// What a rebuild comes to.
pub enum Built {
    /// The tree, as a mapping.
    Done(Map<Seq<u32>, WireModel>),
    /// No tree yet: this arithmetic has to be answered first.
    Ask(FloatOpView),
    Fail(MibErrorView),
}

/// The rebuild over the entries `order`, from index `i` on: each entry in
/// turn is resolved and what it contributes is stored under its key, a
/// later value replacing an earlier one under the same key.
pub open spec fn build(
    order: Seq<Entry>,
    i: int,
    m: Map<Seq<u32>, WireModel>,
    base: Seq<u32>,
    doc: Map<Seq<char>, Seq<Option<Seq<char>>>>,
    answers: Seq<Option<u32>>,
    t: int,
) -> Built
    decreases order.len() - i,
{
    if i < 0 || i >= order.len() {
        Built::Done(m)
    } else {
        match resolve(order[i], doc, answers, t) {
            Resolved::Skip => build(order, i + 1, m, base, doc, answers, t),
            Resolved::Store(v, u) => build(
                order,
                i + 1,
                m.insert(key_for(base, order[i]), v),
                base,
                doc,
                answers,
                u,
            ),
            Resolved::Ask(op) => Built::Ask(op),
            Resolved::Fail(e) => Built::Fail(e),
        }
    }
}

/// The entry is through: it gave its value, or has none to give.
pub open spec fn settled(r: Resolved) -> bool {
    r is Skip || r is Store
}

/// An entry that takes its value from the document and whose chain holds
/// a segment that names no transform is never through.
pub proof fn lemma_unknown_converter_blocks(
    e: Entry,
    doc: Map<Seq<char>, Seq<Option<Seq<char>>>>,
    answers: Seq<Option<u32>>,
    t: int,
    k: int,
)
    requires
        e.literal is None,
        e.json_path is Some,
        e.convert is Some,
        0 <= k < segments(e.convert->0@).len(),
        recognise(segments(e.convert->0@)[k]) is None,
    ensures
        !settled(resolve(e, doc, answers, t)),
{
    let p = e.json_path->0@;
    if plain_path(p) && doc.dom().contains(p) && doc[p].len() > 0 && doc[p][0] is Some {
        lemma_unknown_segment_stops(
            MibView::String(doc[p][0]->0),
            segments(e.convert->0@),
            0,
            answers,
            t,
            k,
        );
    }
}

/// One entry that is never through keeps the whole rebuild from coming
/// to its end, wherever the entry stands in the walk and whatever the
/// other entries hold.
pub proof fn lemma_blocked_entry_blocks_build(
    order: Seq<Entry>,
    i: int,
    m: Map<Seq<u32>, WireModel>,
    base: Seq<u32>,
    doc: Map<Seq<char>, Seq<Option<Seq<char>>>>,
    answers: Seq<Option<u32>>,
    t: int,
    j: int,
)
    requires
        0 <= i <= j < order.len(),
        forall|u: int| !settled(#[trigger] resolve(order[j], doc, answers, u)),
    ensures
        !(build(order, i, m, base, doc, answers, t) is Done),
    decreases j - i,
{
    if i < j {
        match resolve(order[i], doc, answers, t) {
            Resolved::Skip => {
                lemma_blocked_entry_blocks_build(order, i + 1, m, base, doc, answers, t, j);
            },
            Resolved::Store(v, u) => {
                lemma_blocked_entry_blocks_build(
                    order,
                    i + 1,
                    m.insert(key_for(base, order[i]), v),
                    base,
                    doc,
                    answers,
                    u,
                    j,
                );
            },
            _ => {},
        }
    } else {
        assert(!settled(resolve(order[j], doc, answers, t)));
    }
}

/// How a rebuild ended.
#[derive(Debug, PartialEq, Eq)]
pub enum Cycle {
    /// The tree is rebuilt.
    Done,
    /// The answers ran out: the tree is empty, and the rebuild is to be run
    /// again with the answer to this put behind the others.
    Float(FloatOp),
}

/// The answer to an exact request: the identifier as it was asked, with
/// the value stored under it, or with the marker that there is none.
pub open spec fn exact_binding(s: Entries, q: SearchRange, b: VarBind) -> bool {
    &&& b.name.sub_ids@ == q.start.sub_ids@
    &&& b.name.inclusive == q.start.inclusive
    &&& b.data@ == match lookup(s, q.start.sub_ids@) {
        Some(v) => v,
        None => WireModel::NoSuchObject,
    }
}

/// `k` is the key that the range `q` finds: the least key that a search
/// from the start of the range may return, provided that it comes before
/// the end of the range, if the range has an end.
pub open spec fn in_range(s: Entries, q: SearchRange, k: Seq<u32>) -> bool {
    &&& is_successor(s, q.start.sub_ids@, q.start.inclusive, k)
    &&& (q.end.sub_ids@.len() == 0 || path_lt(k, q.end.sub_ids@))
}

/// The answer to a range: the key that the range finds, with its value;
/// where it finds none, the start of the range as it was asked, with the
/// marker for the end of the view.
pub open spec fn next_binding(s: Entries, q: SearchRange, b: VarBind) -> bool {
    if exists|k: Seq<u32>| in_range(s, q, k) {
        &&& in_range(s, q, b.name.sub_ids@)
        &&& !b.name.inclusive
        &&& lookup(s, b.name.sub_ids@) == Some(b.data@)
    } else {
        &&& b.name.sub_ids@ == q.start.sub_ids@
        &&& b.name.inclusive == q.start.inclusive
        &&& b.data@ == WireModel::EndOfMibView
    }
}

/// A search has at most one least key.
pub proof fn lemma_successor_unique(
    s: Entries,
    start: Seq<u32>,
    inclusive: bool,
    k1: Seq<u32>,
    k2: Seq<u32>,
)
    requires
        is_successor(s, start, inclusive, k1),
        is_successor(s, start, inclusive, k2),
    ensures
        k1 == k2,
{
    lemma_path_lt_total(k1, k2);
}

/// An exact request for a path that the tree does not hold is answered
/// with the identifier as it was asked and the marker that there is no
/// such object.
pub proof fn lemma_absent_is_no_such_object(s: Entries, q: SearchRange, b: VarBind)
    requires
        !has_key(s, q.start.sub_ids@),
        exact_binding(s, q, b),
    ensures
        b.name.sub_ids@ == q.start.sub_ids@,
        b.name.inclusive == q.start.inclusive,
        b.data@ == WireModel::NoSuchObject,
{
}

/// A range that starts at the greatest key of the tree is answered with
/// the start as it was asked and the marker for the end of the view,
/// unless the range takes its start in and does not end before it.
pub proof fn lemma_end_of_view(s: Entries, q: SearchRange, b: VarBind)
    requires
        has_key(s, q.start.sub_ids@),
        forall|k: Seq<u32>| #[trigger] has_key(s, k) ==> !path_lt(q.start.sub_ids@, k),
        !(q.start.inclusive && (q.end.sub_ids@.len() == 0 || path_lt(
            q.start.sub_ids@,
            q.end.sub_ids@,
        ))),
        next_binding(s, q, b),
    ensures
        b.name.sub_ids@ == q.start.sub_ids@,
        b.name.inclusive == q.start.inclusive,
        b.data@ == WireModel::EndOfMibView,
{
    assert forall|k: Seq<u32>| !in_range(s, q, k) by {
        if in_range(s, q, k) {
            assert(has_key(s, k));
        }
    }
}

/// What a batch of exact requests comes to.
#[derive(Debug, PartialEq, Eq)]
pub enum Batch {
    /// The answers, one for each request, in the order of the requests.
    Bindings(Vec<VarBind>),
    /// The answers to the arithmetic ran out during the rebuild.
    Float(FloatOp),
}

pub struct Metrics {
    mib: MibTree,
    oid_base: Vec<u32>,
    config: Metric,
}

impl Metrics {
    /// The entries of the tree, in the order of their keys.
    pub closed spec fn entries(&self) -> Entries {
        self.mib@
    }

    /// The path under which every value is stored.
    pub closed spec fn base(&self) -> Seq<u32> {
        self.oid_base@
    }

    /// The configuration of the group.
    pub closed spec fn group(&self) -> Metric {
        self.config
    }

    /// The top entries of the configuration.
    pub open spec fn roots(&self) -> Seq<(u32, Entry)> {
        self.group().mibs@
    }

    /// The keys of the tree rise strictly. This holds of every group.
    #[verifier::type_invariant]
    pub closed spec fn wf(&self) -> bool {
        self.mib.wf()
    }

    /// In a well-formed group the entries of the tree are sorted.
    pub proof fn lemma_wf(&self)
        requires
            self.wf(),
        ensures
            sorted(self.entries()),
    {
    }

    /// What a rebuild from the output `stdout` comes to, with the answers
    /// given: the output is parsed, and the entries of the configuration
    /// are resolved in the order of the walk, into a tree that starts
    /// empty.
    pub open spec fn rebuilt(&self, stdout: Seq<char>, answers: Seq<Option<u32>>) -> Built {
        match parsed_document(stdout) {
            None => Built::Fail(MibErrorView::Json),
            Some(doc) => build(
                walk_pairs(self.roots(), self.roots().len() as int),
                0,
                Map::empty(),
                self.base(),
                doc,
                answers,
                0,
            ),
        }
    }

    /// `after` is what a rebuild of `self` leaves, `r` what it returns.
    pub open spec fn cycle(
        &self,
        after: &Metrics,
        stdout: Seq<char>,
        answers: Seq<Option<u32>>,
        r: Result<Cycle, MibError>,
    ) -> bool {
        &&& after.wf()
        &&& after.base() == self.base()
        &&& after.group() == self.group()
        &&& match self.rebuilt(stdout, answers) {
            Built::Done(m) => r == Ok::<Cycle, MibError>(Cycle::Done) && as_map(after.entries())
                == m,
            Built::Ask(op) => after.entries().len() == 0 && match r {
                Ok(Cycle::Float(o)) => o@ == op,
                _ => false,
            },
            Built::Fail(e) => after.entries().len() == 0 && match r {
                Err(x) => x@ == e,
                _ => false,
            },
        }
    }

    /// A metric group with an empty tree.
    pub fn new(oid_base: &Vec<u32>, config: Metric) -> (m: Self)
        ensures
            m.wf(),
            m.entries().len() == 0,
            m.base() == oid_base@,
            m.group() == config,
    {
        Metrics { mib: MibTree::new(), oid_base: path_copy(oid_base), config }
    }

    /// The command line of the group.
    pub fn command(&self) -> (c: &String)
        ensures
            *c == self.group().command,
    {
        &self.config.command
    }

    /// Rebuilds the tree from the output of the command. Whatever the tree
    /// held before is gone; unless the rebuild comes to its end, the tree
    /// is left empty.
    pub fn generate_mib(&mut self, stdout: &str, answers: &Vec<Option<u32>>) -> (r: Result<
        Cycle,
        MibError,
    >)
        ensures
            old(self).cycle(final(self), stdout@, answers@, r),
    {
        self.mib = MibTree::new();
        let doc = match parse_json(stdout) {
            Ok(doc) => doc,
            Err(_) => {
                return Err(MibError::Json);
            },
        };
        let mut tree = MibTree::new();
        let mut walk = RecursiveIterator::new(&self.config.mibs);
        let mut t: usize = 0;
        let ghost order = walk.remaining();
        let ghost mut i: int = 0;
        let ghost held = document_matches(doc);
        let ghost want = self.rebuilt(stdout@, answers@);
        assert(as_map(tree@) =~= Map::<Seq<u32>, WireModel>::empty());
        assert(order.skip(0) =~= order);
        loop
            invariant
                tree.wf(),
                self.mib@.len() == 0,
                self.mib.wf(),
                0 <= i <= order.len(),
                order.skip(i) == walk.remaining(),
                held == document_matches(doc),
                self.oid_base == old(self).oid_base,
                self.config == old(self).config,
                want == old(self).rebuilt(stdout@, answers@),
                want == build(order, i, as_map(tree@), self.oid_base@, held, answers@, t as int),
            ensures
                want == Built::Done(as_map(tree@)),
            decreases walk.remaining().len(),
        {
            let ghost rest = walk.remaining();
            match walk.next() {
                None => {
                    break ;
                },
                Some(entry) => {
                    assert(rest == seq![*entry] + walk.remaining());
                    assert(rest[0] == *entry);
                    assert(order[i] == order.skip(i)[0]);
                    assert(walk.remaining() =~= rest.skip(1));
                    assert(order.skip(i).skip(1) =~= order.skip(i + 1));
                    match resolve_entry(entry, &doc, answers, t) {
                        Resolution::Skip => {},
                        Resolution::Store(v, u) => {
                            tree.insert(key_of(&self.oid_base, entry), v);
                            t = u;
                        },
                        Resolution::Ask(op) => {
                            return Ok(Cycle::Float(op));
                        },
                        Resolution::Fail(e) => {
                            return Err(e);
                        },
                    }
                    proof {
                        i = i + 1;
                    }
                },
            }
        }
        self.mib = tree;
        Ok(Cycle::Done)
    }

    /// Rebuilds the tree and answers a batch of exact requests from it: for
    /// each request, in order, the identifier as it was asked with the
    /// value stored under it, or with the marker that there is none. A
    /// rebuild that fails fails the whole batch.
    pub fn get(&mut self, stdout: &str, answers: &Vec<Option<u32>>, search_range: &Vec<
        SearchRange,
    >) -> (r: Result<Batch, MibError>)
        ensures
            final(self).wf(),
            final(self).base() == old(self).base(),
            final(self).group() == old(self).group(),
            match r {
                Ok(Batch::Bindings(vbs)) => {
                    &&& old(self).cycle(final(self), stdout@, answers@, Ok(Cycle::Done))
                    &&& vbs@.len() == search_range@.len()
                    &&& forall|j: int|
                        0 <= j < vbs@.len() ==> exact_binding(
                            final(self).entries(),
                            search_range@[j],
                            #[trigger] vbs@[j],
                        )
                },
                Ok(Batch::Float(op)) => old(self).cycle(
                    final(self),
                    stdout@,
                    answers@,
                    Ok(Cycle::Float(op)),
                ),
                Err(e) => old(self).cycle(final(self), stdout@, answers@, Err(e)),
            },
    {
        match self.generate_mib(stdout, answers) {
            Err(e) => {
                return Err(e);
            },
            Ok(Cycle::Float(op)) => {
                return Ok(Batch::Float(op));
            },
            Ok(Cycle::Done) => {},
        }
        let mut vbs: Vec<VarBind> = Vec::new();
        let mut j: usize = 0;
        while j < search_range.len()
            invariant
                self.mib.wf(),
                0 <= j <= search_range.len(),
                vbs@.len() == j,
                forall|n: int|
                    0 <= n < j ==> exact_binding(self.mib@, search_range@[n], #[trigger] vbs@[n]),
            decreases search_range.len() - j,
        {
            let name = search_range[j].start.copy();
            let value = match self.mib.get(&search_range[j].start.sub_ids) {
                Some(v) => v.copy(),
                None => WireValue::NoSuchObject,
            };
            vbs.push(VarBind::new(name, value));
            j += 1;
        }
        Ok(Batch::Bindings(vbs))
    }

    /// Answers a batch of ranges from the tree as it stands: for each
    /// range, in order, the least key at or after its start (after it,
    /// where the start is not inclusive) that comes before its end, with
    /// the value stored there; where there is no such key, the start as it
    /// was asked, with the marker for the end of the view.
    pub fn get_next(&self, search_range: &Vec<SearchRange>) -> (vbs: Vec<VarBind>)
        ensures
            vbs@.len() == search_range@.len(),
            forall|j: int|
                0 <= j < vbs@.len() ==> next_binding(
                    self.entries(),
                    search_range@[j],
                    #[trigger] vbs@[j],
                ),
    {
        proof {
            use_type_invariant(self);
        }
        let mut vbs: Vec<VarBind> = Vec::new();
        let mut j: usize = 0;
        while j < search_range.len()
            invariant
                self.mib.wf(),
                0 <= j <= search_range.len(),
                vbs@.len() == j,
                forall|n: int|
                    0 <= n < j ==> next_binding(self.mib@, search_range@[n], #[trigger] vbs@[n]),
            decreases search_range.len() - j,
        {
            let range = &search_range[j];
            let vb = next_in(&self.mib, range);
            vbs.push(vb);
            j += 1;
        }
        vbs
    }
}

/// Two rebuilds in a row, from the same output and with the same answers,
/// end alike and leave the same tree: the same keys with the same values.
pub proof fn lemma_rebuild_idempotent(
    before: Metrics,
    first: Metrics,
    second: Metrics,
    stdout: Seq<char>,
    answers: Seq<Option<u32>>,
    r1: Result<Cycle, MibError>,
    r2: Result<Cycle, MibError>,
)
    requires
        before.cycle(&first, stdout, answers, r1),
        first.cycle(&second, stdout, answers, r2),
    ensures
        first.entries() == second.entries(),
        r1 is Ok == r2 is Ok,
        r1 == Ok::<Cycle, MibError>(Cycle::Done) <==> r2 == Ok::<Cycle, MibError>(Cycle::Done),
{
    assert(first.rebuilt(stdout, answers) == before.rebuilt(stdout, answers));
    match before.rebuilt(stdout, answers) {
        Built::Done(m) => {
            first.lemma_wf();
            second.lemma_wf();
            lemma_sorted_unique(first.entries(), second.entries());
        },
        _ => {
            assert(first.entries() =~= second.entries());
        },
    }
}

/// A rebuild over a configuration with an entry that is never through
/// does not come to its end: it leaves the tree empty and does not return
/// that it is done, wherever the entry stands.
pub proof fn lemma_blocked_entry_fails_cycle(
    before: Metrics,
    after: Metrics,
    stdout: Seq<char>,
    answers: Seq<Option<u32>>,
    r: Result<Cycle, MibError>,
    j: int,
)
    requires
        before.cycle(&after, stdout, answers, r),
        parsed_document(stdout) is Some,
        0 <= j < walk_pairs(before.roots(), before.roots().len() as int).len(),
        forall|u: int|
            !settled(
                #[trigger] resolve(
                    walk_pairs(before.roots(), before.roots().len() as int)[j],
                    parsed_document(stdout)->0,
                    answers,
                    u,
                ),
            ),
    ensures
        r != Ok::<Cycle, MibError>(Cycle::Done),
        after.entries().len() == 0,
{
    lemma_blocked_entry_blocks_build(
        walk_pairs(before.roots(), before.roots().len() as int),
        0,
        Map::empty(),
        before.base(),
        parsed_document(stdout)->0,
        answers,
        0,
        j,
    );
}

/// The answer of a tree to one range.
pub fn next_in(tree: &MibTree, range: &SearchRange) -> (vb: VarBind)
    requires
        tree.wf(),
    ensures
        next_binding(tree@, *range, vb),
{
    let found = tree.successor(&range.start.sub_ids, range.start.inclusive);
    match found {
        Some((oid, val)) => {
            if range.end.is_null() || path_less(oid, &range.end.sub_ids) {
                assert(in_range(tree@, *range, oid@));
                VarBind::new(Id::new(path_copy(oid)), val.copy())
            } else {
                proof {
                    assert forall|k: Seq<u32>| !in_range(tree@, *range, k) by {
                        if in_range(tree@, *range, k) {
                            lemma_successor_unique(
                                tree@,
                                range.start.sub_ids@,
                                range.start.inclusive,
                                k,
                                oid@,
                            );
                        }
                    }
                }
                VarBind::new(range.start.copy(), WireValue::EndOfMibView)
            }
        },
        None => {
            proof {
                assert forall|k: Seq<u32>| !in_range(tree@, *range, k) by {
                    if in_range(tree@, *range, k) {
                        assert(has_key(tree@, k));
                    }
                }
            }
            VarBind::new(range.start.copy(), WireValue::EndOfMibView)
        },
    }
}

} // verus!
