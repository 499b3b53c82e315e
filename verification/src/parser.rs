use crate::bytes::{slices_equal, Bytes};
use crate::grammar::{
    lemma_ws_end, next_scan_pos, number_end, spec_array_items,
    spec_boolean, spec_null, spec_number, spec_object_items, spec_parse, spec_string, spec_value,
    string_end, ws_end, ErrorModel, ValueModel,
};
use crate::number::check_number_token;
use crate::stream::Stream;
use crate::util::{
    is_number_token, is_numeric_or_negative, is_whitespace, ARRAY_CLOSE, ARRAY_DELIMITER,
    ARRAY_OPEN, ESCAPE, FALSE_IDENT, NULL_IDENT, OBJECT_CLOSE, OBJECT_ENTRY_DELIMITER,
    OBJECT_KV_DELIMITER, OBJECT_OPEN, STRING_BOUNDARY, TRUE_IDENT,
};
use vstd::prelude::*;
use vstd::slice::{slice_index_get, slice_subrange};

verus! {

broadcast use vstd::seq::axiom_seq_index_decreases;

/// An error returned by the parser when the input JSON is malformed. The
/// first error aborts the whole parse; no partial tree is ever returned.
#[derive(Debug, PartialEq)]
pub enum ParseError {
    /// A byte appeared where the grammar disallows it.
    UnexpectedSymbol(u8),
    /// The input ended while more was required.
    UnexpectedEndOfInput,
    /// A numeric token was accumulated that does not denote a number.
    MalformedNumber,
    /// An object defined the same key twice; the bytes are the repeated key.
    DuplicateKey(Vec<u8>),
    /// The input nests arrays and objects deeper than the configured limit.
    DepthLimitExceeded,
}

impl View for ParseError {
    type V = ErrorModel;

    open spec fn view(&self) -> ErrorModel {
        match self {
            ParseError::UnexpectedSymbol(b) => ErrorModel::UnexpectedSymbol(*b),
            ParseError::UnexpectedEndOfInput => ErrorModel::UnexpectedEndOfInput,
            ParseError::MalformedNumber => ErrorModel::MalformedNumber,
            ParseError::DuplicateKey(k) => ErrorModel::DuplicateKey(k@),
            ParseError::DepthLimitExceeded => ErrorModel::DepthLimitExceeded,
        }
    }
}

/// A half-open byte range into a parsed buffer.
#[derive(Clone, Copy, Debug, PartialEq, Eq, Structural)]
pub struct Span {
    /// The index of the first byte of the range.
    pub start: usize,
    /// The index one past the last byte of the range.
    pub end: usize,
}

/// The bytes that `sp` designates in `s`.
pub open spec fn span_seq(sp: Span, s: Seq<u8>) -> Seq<u8> {
    s.subrange(sp.start as int, sp.end as int)
}

/// Whether `sp` lies within a buffer of length `n`.
pub open spec fn span_in_bounds(sp: Span, n: int) -> bool {
    sp.start <= sp.end <= n
}

/// A parse tree that carries byte ranges instead of byte views: the form the
/// parser produces internally, independent of the buffer's lifetime. It has
/// no absence sentinel, so a finished tree cannot contain one.
pub enum SpanValue {
    /// A string: the range of its raw content between the quotes.
    String(Span),
    /// A number: the range of its numeric token.
    Number(Span),
    /// A boolean.
    Boolean(bool),
    /// An object: its entries in source order, keys as ranges.
    Object(Vec<(Span, SpanValue)>),
    /// An array: its elements in source order.
    Array(Vec<SpanValue>),
    /// Null.
    Null,
}

/// Whether every range in the tree lies within a buffer of length `n`.
pub open spec fn span_wf(sv: SpanValue, n: int) -> bool
    decreases sv,
{
    match sv {
        SpanValue::String(sp) => span_in_bounds(sp, n),
        SpanValue::Number(sp) => span_in_bounds(sp, n),
        SpanValue::Boolean(_) => true,
        SpanValue::Null => true,
        SpanValue::Array(items) => spans_wf(items@, n),
        SpanValue::Object(entries) => span_entries_wf(entries@, n),
    }
}

/// Whether every tree of `items` is well formed for a buffer of length `n`.
pub open spec fn spans_wf(items: Seq<SpanValue>, n: int) -> bool
    decreases items,
{
    if items.len() == 0 {
        true
    } else {
        span_wf(items[0], n) && spans_wf(items.subrange(1, items.len() as int), n)
    }
}

/// Whether every entry of `entries` is well formed for a buffer of length `n`.
pub open spec fn span_entries_wf(entries: Seq<(Span, SpanValue)>, n: int) -> bool
    decreases entries,
{
    if entries.len() == 0 {
        true
    } else {
        span_in_bounds(entries[0].0, n) && span_wf(entries[0].1, n) && span_entries_wf(
            entries.subrange(1, entries.len() as int),
            n,
        )
    }
}

proof fn lemma_spans_wf(items: Seq<SpanValue>, n: int)
    ensures
        spans_wf(items, n) == forall|i: int| 0 <= i < items.len() ==> span_wf(#[trigger] items[i], n),
    decreases items.len(),
{
    if items.len() > 0 {
        let rest = items.subrange(1, items.len() as int);
        lemma_spans_wf(rest, n);
        assert(forall|i: int| 0 <= i < rest.len() ==> rest[i] == items[i + 1]);
        if span_wf(items[0], n) && (forall|i: int|
            0 <= i < rest.len() ==> span_wf(#[trigger] rest[i], n)) {
            assert forall|i: int| 0 <= i < items.len() implies span_wf(#[trigger] items[i], n) by {
                if i > 0 {
                    assert(items[i] == rest[i - 1]);
                }
            };
        }
    }
}

proof fn lemma_span_entries_wf(entries: Seq<(Span, SpanValue)>, n: int)
    ensures
        span_entries_wf(entries, n) == forall|i: int|
            0 <= i < entries.len() ==> span_in_bounds((#[trigger] entries[i]).0, n) && span_wf(
                entries[i].1,
                n,
            ),
    decreases entries.len(),
{
    if entries.len() > 0 {
        let rest = entries.subrange(1, entries.len() as int);
        lemma_span_entries_wf(rest, n);
        assert(forall|i: int| 0 <= i < rest.len() ==> rest[i] == entries[i + 1]);
        if span_in_bounds(entries[0].0, n) && span_wf(entries[0].1, n) && (forall|i: int|
            0 <= i < rest.len() ==> span_in_bounds((#[trigger] rest[i]).0, n) && span_wf(
                rest[i].1,
                n,
            )) {
            assert forall|i: int|
                0 <= i < entries.len() implies span_in_bounds(
                (#[trigger] entries[i]).0,
                n,
            ) && span_wf(entries[i].1, n) by {
                if i > 0 {
                    assert(entries[i] == rest[i - 1]);
                }
            };
        }
    }
}

/// The value a span tree denotes over the buffer `s`.
pub open spec fn span_model(sv: SpanValue, s: Seq<u8>) -> ValueModel
    decreases sv,
{
    match sv {
        SpanValue::String(sp) => ValueModel::String(span_seq(sp, s)),
        SpanValue::Number(sp) => ValueModel::Number(span_seq(sp, s)),
        SpanValue::Boolean(b) => ValueModel::Boolean(b),
        SpanValue::Null => ValueModel::Null,
        SpanValue::Array(items) => ValueModel::Array(span_models(items@, s)),
        SpanValue::Object(entries) => ValueModel::Object(span_entry_models(entries@, s)),
    }
}

/// The values the trees of `items` denote, in order.
pub open spec fn span_models(items: Seq<SpanValue>, s: Seq<u8>) -> Seq<ValueModel>
    decreases items,
{
    if items.len() == 0 {
        Seq::empty()
    } else {
        seq![span_model(items[0], s)] + span_models(items.subrange(1, items.len() as int), s)
    }
}

/// The key bytes and values the entries denote, in order.
pub open spec fn span_entry_models(entries: Seq<(Span, SpanValue)>, s: Seq<u8>) -> Seq<
    (Seq<u8>, ValueModel),
>
    decreases entries,
{
    if entries.len() == 0 {
        Seq::empty()
    } else {
        seq![(span_seq(entries[0].0, s), span_model(entries[0].1, s))] + span_entry_models(
            entries.subrange(1, entries.len() as int),
            s,
        )
    }
}

proof fn lemma_span_models(items: Seq<SpanValue>, s: Seq<u8>)
    ensures
        span_models(items, s).len() == items.len(),
        forall|i: int|
            0 <= i < items.len() ==> #[trigger] span_models(items, s)[i] == span_model(
                items[i],
                s,
            ),
    decreases items.len(),
{
    if items.len() > 0 {
        let rest = items.subrange(1, items.len() as int);
        lemma_span_models(rest, s);
        assert(forall|i: int| 0 <= i < rest.len() ==> rest[i] == items[i + 1]);
    }
}

proof fn lemma_span_entry_models(entries: Seq<(Span, SpanValue)>, s: Seq<u8>)
    ensures
        span_entry_models(entries, s).len() == entries.len(),
        forall|i: int|
            0 <= i < entries.len() ==> #[trigger] span_entry_models(entries, s)[i] == (
                span_seq(entries[i].0, s),
                span_model(entries[i].1, s),
            ),
    decreases entries.len(),
{
    if entries.len() > 0 {
        let rest = entries.subrange(1, entries.len() as int);
        lemma_span_entry_models(rest, s);
        assert(forall|i: int| 0 <= i < rest.len() ==> rest[i] == entries[i + 1]);
    }
}

proof fn lemma_span_models_push(items: Seq<SpanValue>, x: SpanValue, s: Seq<u8>)
    ensures
        span_models(items.push(x), s) == span_models(items, s).push(span_model(x, s)),
{
    lemma_span_models(items, s);
    lemma_span_models(items.push(x), s);
    assert(span_models(items.push(x), s) =~= span_models(items, s).push(span_model(x, s)));
}

proof fn lemma_span_entry_models_push(entries: Seq<(Span, SpanValue)>, x: (Span, SpanValue), s: Seq<u8>)
    ensures
        span_entry_models(entries.push(x), s) == span_entry_models(entries, s).push(
            (span_seq(x.0, s), span_model(x.1, s)),
        ),
{
    lemma_span_entry_models(entries, s);
    lemma_span_entry_models(entries.push(x), s);
    assert(span_entry_models(entries.push(x), s) =~= span_entry_models(entries, s).push(
        (span_seq(x.0, s), span_model(x.1, s)),
    ));
}

/// The key bytes of the entries, in order.
pub open spec fn entry_keys(entries: Seq<(Span, SpanValue)>, s: Seq<u8>) -> Seq<Seq<u8>> {
    Seq::new(entries.len(), |i: int| span_seq(entries[i].0, s))
}

proof fn lemma_entry_keys_push(entries: Seq<(Span, SpanValue)>, x: (Span, SpanValue), s: Seq<u8>)
    ensures
        entry_keys(entries.push(x), s) == entry_keys(entries, s).push(span_seq(x.0, s)),
{
    assert(entry_keys(entries.push(x), s) =~= entry_keys(entries, s).push(span_seq(x.0, s)));
}

/// `r` with the already-parsed elements `prefix` put in front of its items.
spec fn with_prefix_items(
    prefix: Seq<ValueModel>,
    r: Result<(Seq<ValueModel>, int), ErrorModel>,
) -> Result<(Seq<ValueModel>, int), ErrorModel> {
    match r {
        Ok(p) => Ok((prefix + p.0, p.1)),
        Err(e) => Err(e),
    }
}

/// `r` with the already-parsed entries `prefix` put in front of its entries.
spec fn with_prefix_entries(
    prefix: Seq<(Seq<u8>, ValueModel)>,
    r: Result<(Seq<(Seq<u8>, ValueModel)>, int), ErrorModel>,
) -> Result<(Seq<(Seq<u8>, ValueModel)>, int), ErrorModel> {
    match r {
        Ok(p) => Ok((prefix + p.0, p.1)),
        Err(e) => Err(e),
    }
}

/// A value as represented in parsed JSON. String data is borrowed from the
/// input buffer: a value is valid exactly as long as that buffer is.
#[derive(Debug)]
pub enum Value<'a> {
    /// A string, composed of the raw bytes borrowed from the input; escape
    /// sequences are kept verbatim, never decoded.
    String(Bytes<'a>),
    /// A number, held as the raw bytes of its numeric token. The token is
    /// guaranteed to denote a 64-bit float; converting it is left to the
    /// caller, since the parser itself never touches floating point.
    Number(Bytes<'a>),
    /// A boolean.
    Boolean(bool),
    /// An object: its entries in source order, with pairwise distinct keys.
    Object(Vec<(Bytes<'a>, Value<'a>)>),
    /// An array of values in source order.
    Array(Vec<Value<'a>>),
    /// Null (no value).
    Null,
    /// The absence sentinel, distinct from `Null`. The parser never places
    /// it anywhere in a returned tree.
    Nothing,
}

/// The value a borrowed tree denotes.
pub open spec fn value_model(v: Value) -> ValueModel
    decreases v,
{
    match v {
        Value::String(b) => ValueModel::String(b@),
        Value::Number(b) => ValueModel::Number(b@),
        Value::Boolean(x) => ValueModel::Boolean(x),
        Value::Null => ValueModel::Null,
        Value::Nothing => ValueModel::Nothing,
        Value::Array(items) => ValueModel::Array(value_models(items@)),
        Value::Object(entries) => ValueModel::Object(value_entry_models(entries@)),
    }
}

/// The values the trees of `items` denote, in order.
pub open spec fn value_models(items: Seq<Value>) -> Seq<ValueModel>
    decreases items,
{
    if items.len() == 0 {
        Seq::empty()
    } else {
        seq![value_model(items[0])] + value_models(items.subrange(1, items.len() as int))
    }
}

/// The key bytes and values the entries denote, in order.
pub open spec fn value_entry_models(entries: Seq<(Bytes, Value)>) -> Seq<(Seq<u8>, ValueModel)>
    decreases entries,
{
    if entries.len() == 0 {
        Seq::empty()
    } else {
        seq![(entries[0].0@, value_model(entries[0].1))] + value_entry_models(
            entries.subrange(1, entries.len() as int),
        )
    }
}

proof fn lemma_value_models(items: Seq<Value>)
    ensures
        value_models(items).len() == items.len(),
        forall|i: int|
            0 <= i < items.len() ==> #[trigger] value_models(items)[i] == value_model(items[i]),
    decreases items.len(),
{
    if items.len() > 0 {
        let rest = items.subrange(1, items.len() as int);
        lemma_value_models(rest);
        assert(forall|i: int| 0 <= i < rest.len() ==> rest[i] == items[i + 1]);
    }
}

proof fn lemma_value_entry_models(entries: Seq<(Bytes, Value)>)
    ensures
        value_entry_models(entries).len() == entries.len(),
        forall|i: int|
            0 <= i < entries.len() ==> #[trigger] value_entry_models(entries)[i] == (
                entries[i].0@,
                value_model(entries[i].1),
            ),
    decreases entries.len(),
{
    if entries.len() > 0 {
        let rest = entries.subrange(1, entries.len() as int);
        lemma_value_entry_models(rest);
        assert(forall|i: int| 0 <= i < rest.len() ==> rest[i] == entries[i + 1]);
    }
}

impl<'a> View for Value<'a> {
    type V = ValueModel;

    open spec fn view(&self) -> ValueModel {
        value_model(*self)
    }
}

/// Turns a span tree into a borrowed tree over `data` without copying any
/// byte: every string and key is a view into `data`.
#[verifier::loop_isolation(false)]
pub fn to_value<'a>(sv: &SpanValue, data: &'a [u8]) -> (v: Value<'a>)
    requires
        span_wf(*sv, data@.len() as int),
    ensures
        v@ == span_model(*sv, data@),
    decreases *sv,
{
    match sv {
        SpanValue::String(sp) => Value::String(Bytes(slice_subrange(data, sp.start, sp.end))),
        SpanValue::Number(sp) => Value::Number(Bytes(slice_subrange(data, sp.start, sp.end))),
        SpanValue::Boolean(b) => Value::Boolean(*b),
        SpanValue::Null => Value::Null,
        SpanValue::Array(items) => {
            proof {
                lemma_spans_wf(items@, data@.len() as int);
            }
            let mut out: Vec<Value<'a>> = Vec::new();
            let mut i: usize = 0;
            while i < items.len()
                invariant
                    0 <= i <= items@.len(),
                    out@.len() == i,
                    forall|j: int|
                        0 <= j < i ==> value_model(#[trigger] out@[j]) == span_model(
                            items@[j],
                            data@,
                        ),
                decreases items@.len() - i,
            {
                let child = to_value(&items[i], data);
                out.push(child);
                i = i + 1;
            }
            proof {
                lemma_value_models(out@);
                lemma_span_models(items@, data@);
                assert(value_models(out@) =~= span_models(items@, data@));
            }
            Value::Array(out)
        },
        SpanValue::Object(entries) => {
            proof {
                lemma_span_entries_wf(entries@, data@.len() as int);
            }
            let mut out: Vec<(Bytes<'a>, Value<'a>)> = Vec::new();
            let mut i: usize = 0;
            while i < entries.len()
                invariant
                    0 <= i <= entries@.len(),
                    out@.len() == i,
                    forall|j: int|
                        0 <= j < i ==> (#[trigger] out@[j]).0@ == span_seq(entries@[j].0, data@)
                            && value_model(out@[j].1) == span_model(entries@[j].1, data@),
                decreases entries@.len() - i,
            {
                let entry = &entries[i];
                let key = Bytes(slice_subrange(data, entry.0.start, entry.0.end));
                let child = to_value(&entry.1, data);
                out.push((key, child));
                i = i + 1;
            }
            proof {
                lemma_value_entry_models(out@);
                lemma_span_entry_models(entries@, data@);
                assert(value_entry_models(out@) =~= span_entry_models(entries@, data@));
            }
            Value::Object(out)
        },
    }
}

/// Structural equality of two trees: equal iff their models are equal, so
/// byte views compare by contents, arrays element by element, objects entry
/// by entry in order.
#[verifier::loop_isolation(false)]
pub fn value_eq(a: &Value, b: &Value) -> (r: bool)
    ensures
        r == (a@ == b@),
    decreases *a,
{
    match (a, b) {
        (Value::String(x), Value::String(y)) => slices_equal(x.0, y.0),
        (Value::Number(x), Value::Number(y)) => slices_equal(x.0, y.0),
        (Value::Boolean(x), Value::Boolean(y)) => *x == *y,
        (Value::Null, Value::Null) => true,
        (Value::Nothing, Value::Nothing) => true,
        (Value::Array(xs), Value::Array(ys)) => {
            proof {
                lemma_value_models(xs@);
                lemma_value_models(ys@);
            }
            if xs.len() != ys.len() {
                return false;
            }
            let mut i: usize = 0;
            while i < xs.len()
                invariant
                    0 <= i <= xs@.len(),
                    forall|j: int|
                        0 <= j < i ==> value_model(#[trigger] xs@[j]) == value_model(ys@[j]),
                decreases xs@.len() - i,
            {
                if !value_eq(&xs[i], &ys[i]) {
                    proof {
                        assert(value_models(xs@)[i as int] != value_models(ys@)[i as int]);
                    }
                    return false;
                }
                i = i + 1;
            }
            proof {
                assert(value_models(xs@) =~= value_models(ys@));
            }
            true
        },
        (Value::Object(xs), Value::Object(ys)) => {
            proof {
                lemma_value_entry_models(xs@);
                lemma_value_entry_models(ys@);
            }
            if xs.len() != ys.len() {
                return false;
            }
            let mut i: usize = 0;
            while i < xs.len()
                invariant
                    0 <= i <= xs@.len(),
                    forall|j: int|
                        0 <= j < i ==> (#[trigger] xs@[j]).0@ == ys@[j].0@ && value_model(
                            xs@[j].1,
                        ) == value_model(ys@[j].1),
                decreases xs@.len() - i,
            {
                let ex = &xs[i];
                let ey = &ys[i];
                if !slices_equal(ex.0.0, ey.0.0) {
                    proof {
                        assert(value_entry_models(xs@)[i as int].0 != value_entry_models(
                            ys@,
                        )[i as int].0);
                    }
                    return false;
                }
                if !value_eq(&ex.1, &ey.1) {
                    proof {
                        assert(value_entry_models(xs@)[i as int].1 != value_entry_models(
                            ys@,
                        )[i as int].1);
                    }
                    return false;
                }
                i = i + 1;
            }
            proof {
                assert(value_entry_models(xs@) =~= value_entry_models(ys@));
            }
            true
        },
        _ => {
            proof {
                assert(a@ != b@);
            }
            false
        },
    }
}

impl<'a> PartialEq for Value<'a> {
    /// Structural equality over the raw bytes of the tree.
    fn eq(&self, other: &Value<'a>) -> (r: bool) {
        value_eq(self, other)
    }
}

impl<'a> vstd::std_specs::cmp::PartialEqSpecImpl for Value<'a> {
    open spec fn obeys_eq_spec() -> bool {
        true
    }

    open spec fn eq_spec(&self, other: &Value<'a>) -> bool {
        value_model(*self) == value_model(*other)
    }
}

/// The nesting-depth limit a parser is given when none is chosen explicitly:
/// how many arrays and objects may be open at once.
pub const DEFAULT_DEPTH_LIMIT: usize = 64;

/// The parser itself: a stream over the input bytes and a nesting-depth
/// limit. Create one with `new` or `with_depth_limit` and call `parse`.
pub struct Parser<'a> {
    stream: Stream<'a>,
    depth_limit: usize,
}

impl<'a> Parser<'a> {
    /// The input bytes.
    pub closed spec fn data(self) -> Seq<u8> {
        self.stream.data_seq()
    }

    /// The current cursor position.
    pub closed spec fn pos(self) -> int {
        self.stream.pos()
    }

    /// The nesting-depth limit.
    pub closed spec fn limit(self) -> nat {
        self.depth_limit as nat
    }

    /// The cursor position lies within the input.
    pub open spec fn wf(self) -> bool {
        0 <= self.pos() <= self.data().len()
    }

    /// Creates a new parser over raw JSON bytes, with the default
    /// nesting-depth limit.
    pub fn new(input: &'a [u8]) -> (p: Parser<'a>)
        ensures
            p.wf(),
            p.data() == input@,
            p.pos() == 0,
            p.limit() == DEFAULT_DEPTH_LIMIT,
    {
        Parser { stream: Stream::new(input), depth_limit: DEFAULT_DEPTH_LIMIT }
    }

    /// Creates a new parser with a chosen nesting-depth limit: an input that
    /// opens more than `depth_limit` arrays and objects at once is rejected
    /// with `DepthLimitExceeded` instead of exhausting the call stack.
    pub fn with_depth_limit(input: &'a [u8], depth_limit: usize) -> (p: Parser<'a>)
        ensures
            p.wf(),
            p.data() == input@,
            p.pos() == 0,
            p.limit() == depth_limit,
    {
        Parser { stream: Stream::new(input), depth_limit }
    }

    /// Skips whitespace; fails with `UnexpectedEndOfInput` if nothing but
    /// whitespace remains.
    #[verifier::loop_isolation(false)]
    pub fn skip_whitespace_no_eof(&mut self) -> (res: Result<(), ParseError>)
        requires
            old(self).wf(),
        ensures
            final(self).wf(),
            final(self).data() == old(self).data(),
            final(self).limit() == old(self).limit(),
            final(self).pos() == ws_end(old(self).data(), old(self).pos()),
            match res {
                Ok(_) => final(self).pos() < old(self).data().len(),
                Err(e) => e@ == ErrorModel::UnexpectedEndOfInput && final(self).pos()
                    == old(self).data().len(),
            },
    {
        let ghost d = self.data();
        while !self.stream.is_eof() && is_whitespace(self.stream.current_unchecked())
            invariant
                self.wf(),
                self.data() == d,
                self.limit() == old(self).limit(),
                old(self).pos() <= self.pos() <= d.len(),
                ws_end(d, old(self).pos()) == ws_end(d, self.pos()),
            decreases d.len() - self.pos(),
        {
            self.stream.skip();
        }
        if self.stream.is_eof() {
            Err(ParseError::UnexpectedEndOfInput)
        } else {
            Ok(())
        }
    }

    /// Scans a string whose opening quote stands at the current position and
    /// returns the range of its raw content; the cursor ends just after the
    /// closing quote.
    #[verifier::loop_isolation(false)]
    fn scan_string(&mut self) -> (res: Result<Span, ParseError>)
        requires
            old(self).wf(),
            old(self).pos() < old(self).data().len(),
        ensures
            final(self).wf(),
            final(self).data() == old(self).data(),
            final(self).limit() == old(self).limit(),
            match res {
                Ok(sp) => {
                    &&& spec_string(old(self).data(), old(self).pos()) == Ok::<
                        (Seq<u8>, int),
                        ErrorModel,
                    >((span_seq(sp, old(self).data()), final(self).pos()))
                    &&& span_in_bounds(sp, old(self).data().len() as int)
                    &&& old(self).pos() < final(self).pos() <= old(self).data().len()
                },
                Err(e) => spec_string(old(self).data(), old(self).pos()) == Err::<
                    (Seq<u8>, int),
                    ErrorModel,
                >(e@),
            },
    {
        let ghost d = self.data();
        let start = self.stream.position();
        self.stream.skip();
        while !self.stream.is_eof()
            invariant
                self.wf(),
                self.data() == d,
                self.limit() == old(self).limit(),
                start + 1 <= self.pos() <= d.len(),
                string_end(d, start + 1) == string_end(d, self.pos()),
            decreases d.len() - self.pos(),
        {
            let c = self.stream.current_unchecked();
            if c == ESCAPE {
                self.stream.skip();
                if self.stream.is_eof() {
                    return Err(ParseError::UnexpectedEndOfInput);
                }
                self.stream.skip();
            } else if c == STRING_BOUNDARY {
                let e = self.stream.position();
                self.stream.skip();
                return Ok(Span { start: start + 1, end: e });
            } else {
                self.stream.skip();
            }
        }
        Err(ParseError::UnexpectedEndOfInput)
    }

    /// Parses a string whose opening quote stands at the current position,
    /// returning its raw content as a borrowed view; no byte is copied and
    /// escape sequences are kept verbatim.
    pub fn parse_string(&mut self) -> (res: Result<Bytes<'a>, ParseError>)
        requires
            old(self).wf(),
            old(self).pos() < old(self).data().len(),
        ensures
            final(self).wf(),
            final(self).data() == old(self).data(),
            final(self).limit() == old(self).limit(),
            match res {
                Ok(b) => spec_string(old(self).data(), old(self).pos()) == Ok::<
                    (Seq<u8>, int),
                    ErrorModel,
                >((b@, final(self).pos())),
                Err(e) => spec_string(old(self).data(), old(self).pos()) == Err::<
                    (Seq<u8>, int),
                    ErrorModel,
                >(e@),
            },
    {
        match self.scan_string() {
            Ok(sp) => Ok(Bytes(self.stream.slice_unchecked(sp.start, sp.end))),
            Err(e) => Err(e),
        }
    }

    /// Parses a boolean literal: the next four bytes must spell `true` or
    /// the next five `false`.
    fn parse_boolean(&mut self) -> (res: Result<SpanValue, ParseError>)
        requires
            old(self).wf(),
            old(self).pos() < old(self).data().len(),
        ensures
            final(self).wf(),
            final(self).data() == old(self).data(),
            final(self).limit() == old(self).limit(),
            match res {
                Ok(sv) => {
                    &&& spec_boolean(old(self).data(), old(self).pos()) == Ok::<
                        (ValueModel, int),
                        ErrorModel,
                    >((span_model(sv, old(self).data()), final(self).pos()))
                    &&& span_wf(sv, old(self).data().len() as int)
                    &&& old(self).pos() < final(self).pos() <= old(self).data().len()
                },
                Err(e) => spec_boolean(old(self).data(), old(self).pos()) == Err::<
                    (ValueModel, int),
                    ErrorModel,
                >(e@),
            },
    {
        let ghost d = self.data();
        let p = self.stream.position();
        let n = self.stream.length();
        if n - p >= 4 {
            let s4 = self.stream.slice_unchecked(p, p + 4);
            if *slice_index_get(s4, 0) == TRUE_IDENT && *slice_index_get(s4, 1) == 114
                && *slice_index_get(s4, 2) == 117 && *slice_index_get(s4, 3) == 101 {
                self.stream.skip_n(4);
                return Ok(SpanValue::Boolean(true));
            }
        }
        if n - p >= 5 {
            let s5 = self.stream.slice_unchecked(p, p + 5);
            if *slice_index_get(s5, 0) == FALSE_IDENT && *slice_index_get(s5, 1) == 97
                && *slice_index_get(s5, 2) == 108 && *slice_index_get(s5, 3) == 115
                && *slice_index_get(s5, 4) == 101 {
                self.stream.skip_n(5);
                return Ok(SpanValue::Boolean(false));
            }
        }
        Err(ParseError::UnexpectedSymbol(self.stream.current_unchecked()))
    }

    /// Parses the null literal: the next four bytes must spell `null`.
    fn parse_null(&mut self) -> (res: Result<SpanValue, ParseError>)
        requires
            old(self).wf(),
            old(self).pos() < old(self).data().len(),
        ensures
            final(self).wf(),
            final(self).data() == old(self).data(),
            final(self).limit() == old(self).limit(),
            match res {
                Ok(sv) => {
                    &&& spec_null(old(self).data(), old(self).pos()) == Ok::<
                        (ValueModel, int),
                        ErrorModel,
                    >((span_model(sv, old(self).data()), final(self).pos()))
                    &&& span_wf(sv, old(self).data().len() as int)
                    &&& old(self).pos() < final(self).pos() <= old(self).data().len()
                },
                Err(e) => spec_null(old(self).data(), old(self).pos()) == Err::<
                    (ValueModel, int),
                    ErrorModel,
                >(e@),
            },
    {
        let p = self.stream.position();
        let n = self.stream.length();
        if n - p >= 4 {
            let s4 = self.stream.slice_unchecked(p, p + 4);
            if *slice_index_get(s4, 0) == NULL_IDENT && *slice_index_get(s4, 1) == 117
                && *slice_index_get(s4, 2) == 108 && *slice_index_get(s4, 3) == 108 {
                self.stream.skip_n(4);
                return Ok(SpanValue::Null);
            }
        }
        Err(ParseError::UnexpectedSymbol(self.stream.current_unchecked()))
    }

    /// Parses a number: accumulates the whole run of accumulation-set bytes
    /// from the current position and validates it, failing with
    /// `MalformedNumber` if the run does not denote a number.
    #[verifier::loop_isolation(false)]
    fn parse_number(&mut self) -> (res: Result<SpanValue, ParseError>)
        requires
            old(self).wf(),
        ensures
            final(self).wf(),
            final(self).data() == old(self).data(),
            final(self).limit() == old(self).limit(),
            match res {
                Ok(sv) => {
                    &&& spec_number(old(self).data(), old(self).pos()) == Ok::<
                        (ValueModel, int),
                        ErrorModel,
                    >((span_model(sv, old(self).data()), final(self).pos()))
                    &&& span_wf(sv, old(self).data().len() as int)
                    &&& old(self).pos() < final(self).pos() <= old(self).data().len()
                },
                Err(e) => spec_number(old(self).data(), old(self).pos()) == Err::<
                    (ValueModel, int),
                    ErrorModel,
                >(e@),
            },
    {
        let ghost d = self.data();
        let start = self.stream.position();
        while !self.stream.is_eof() && is_number_token(self.stream.current_unchecked())
            invariant
                self.wf(),
                self.data() == d,
                self.limit() == old(self).limit(),
                start <= self.pos() <= d.len(),
                number_end(d, start as int) == number_end(d, self.pos()),
            decreases d.len() - self.pos(),
        {
            self.stream.skip();
        }
        let end = self.stream.position();
        let token = self.stream.slice_unchecked(start, end);
        if check_number_token(token) {
            proof {
                crate::grammar::lemma_valid_number_token_nonempty(token@);
            }
            Ok(SpanValue::Number(Span { start, end }))
        } else {
            Err(ParseError::MalformedNumber)
        }
    }

    /// Parses one value scanned from the current position: skips leading
    /// whitespace and dispatches on the first significant byte. `depth` is
    /// the number of arrays and objects that may still be entered.
    fn parse_value(&mut self, depth: usize) -> (res: Result<SpanValue, ParseError>)
        requires
            old(self).wf(),
        ensures
            final(self).wf(),
            final(self).data() == old(self).data(),
            final(self).limit() == old(self).limit(),
            match res {
                Ok(sv) => {
                    &&& spec_value(old(self).data(), old(self).pos(), depth as nat) == Ok::<
                        (ValueModel, int),
                        ErrorModel,
                    >((span_model(sv, old(self).data()), final(self).pos()))
                    &&& span_wf(sv, old(self).data().len() as int)
                    &&& old(self).pos() < final(self).pos() <= old(self).data().len()
                },
                Err(e) => spec_value(old(self).data(), old(self).pos(), depth as nat) == Err::<
                    (ValueModel, int),
                    ErrorModel,
                >(e@),
            },
        decreases depth, 0int,
    {
        proof {
            lemma_ws_end(old(self).data(), old(self).pos());
        }
        match self.skip_whitespace_no_eof() {
            Err(e) => {
                return Err(e);
            },
            Ok(_) => {},
        }
        let c = self.stream.current_unchecked();
        if c == TRUE_IDENT || c == FALSE_IDENT {
            match self.parse_boolean() {
                Ok(sv) => Ok(sv),
                Err(e) => Err(e),
            }
        } else if c == NULL_IDENT {
            match self.parse_null() {
                Ok(sv) => Ok(sv),
                Err(e) => Err(e),
            }
        } else if c == STRING_BOUNDARY {
            match self.scan_string() {
                Ok(sp) => Ok(SpanValue::String(sp)),
                Err(e) => Err(e),
            }
        } else if c == ARRAY_OPEN {
            if depth == 0 {
                return Err(ParseError::DepthLimitExceeded);
            }
            self.stream.skip();
            match self.parse_array(depth - 1) {
                Ok(sv) => Ok(sv),
                Err(e) => Err(e),
            }
        } else if c == OBJECT_OPEN {
            if depth == 0 {
                return Err(ParseError::DepthLimitExceeded);
            }
            self.stream.skip();
            match self.parse_object(depth - 1) {
                Ok(sv) => Ok(sv),
                Err(e) => Err(e),
            }
        } else if is_numeric_or_negative(c) {
            match self.parse_number() {
                Ok(sv) => Ok(sv),
                Err(e) => Err(e),
            }
        } else {
            Err(ParseError::UnexpectedSymbol(c))
        }
    }

    /// Parses the elements of an array whose opening bracket was just
    /// consumed, up to and including the closing bracket.
    #[verifier::loop_isolation(false)]
    fn parse_array(&mut self, depth: usize) -> (res: Result<SpanValue, ParseError>)
        requires
            old(self).wf(),
        ensures
            final(self).wf(),
            final(self).data() == old(self).data(),
            final(self).limit() == old(self).limit(),
            match res {
                Ok(sv) => {
                    &&& sv is Array
                    &&& spec_array_items(old(self).data(), old(self).pos(), depth as nat, false)
                        == Ok::<(Seq<ValueModel>, int), ErrorModel>(
                        (span_model(sv, old(self).data())->Array_0, final(self).pos()),
                    )
                    &&& span_wf(sv, old(self).data().len() as int)
                    &&& old(self).pos() < final(self).pos() <= old(self).data().len()
                },
                Err(e) => spec_array_items(old(self).data(), old(self).pos(), depth as nat, false)
                    == Err::<(Seq<ValueModel>, int), ErrorModel>(e@),
            },
        decreases depth, 1int,
    {
        let ghost d = self.data();
        let ghost p0 = self.pos();
        let ghost dep = depth as nat;
        let mut out: Vec<SpanValue> = Vec::new();
        loop
            invariant
                self.wf(),
                self.data() == d,
                self.limit() == old(self).limit(),
                p0 <= self.pos() <= d.len(),
                forall|j: int| 0 <= j < out@.len() ==> span_wf(#[trigger] out@[j], d.len() as int),
                spec_array_items(d, p0, dep, false) == with_prefix_items(
                    span_models(out@, d),
                    spec_array_items(d, self.pos(), dep, out@.len() > 0),
                ),
            decreases d.len() - self.pos(),
        {
            let ghost cur = self.pos();
            let ghost prefix = span_models(out@, d);
            proof {
                lemma_ws_end(d, cur);
            }
            match self.skip_whitespace_no_eof() {
                Err(e) => {
                    return Err(e);
                },
                Ok(_) => {},
            }
            let ghost r = self.pos();
            let c = self.stream.current_unchecked();
            if c == ARRAY_DELIMITER {
                self.stream.skip();
                if self.stream.is_eof() {
                    return Err(ParseError::UnexpectedEndOfInput);
                }
                match self.parse_value(depth) {
                    Err(e) => {
                        return Err(e);
                    },
                    Ok(sv) => {
                        proof {
                            let q = self.pos();
                            assert(next_scan_pos(d, r + 1, q) == q);
                            lemma_span_models_push(out@, sv, d);
                            match spec_array_items(d, q, dep, true) {
                                Ok(p) => {
                                    assert(prefix + (seq![span_model(sv, d)] + p.0) =~= prefix.push(
                                        span_model(sv, d),
                                    ) + p.0);
                                },
                                Err(_) => {},
                            }
                        }
                        out.push(sv);
                    },
                }
            } else if c == ARRAY_CLOSE {
                self.stream.skip();
                proof {
                    assert(prefix + Seq::<ValueModel>::empty() =~= prefix);
                    lemma_spans_wf(out@, d.len() as int);
                }
                return Ok(SpanValue::Array(out));
            } else {
                if out.len() == 0 {
                    match self.parse_value(depth) {
                        Err(e) => {
                            return Err(e);
                        },
                        Ok(sv) => {
                            proof {
                                let q = self.pos();
                                assert(next_scan_pos(d, r, q) == q);
                                lemma_span_models_push(out@, sv, d);
                                match spec_array_items(d, q, dep, true) {
                                    Ok(p) => {
                                        assert(prefix + (seq![span_model(sv, d)] + p.0)
                                            =~= prefix.push(span_model(sv, d)) + p.0);
                                    },
                                    Err(_) => {},
                                }
                            }
                            out.push(sv);
                        },
                    }
                } else {
                    return Err(ParseError::UnexpectedSymbol(c));
                }
            }
        }
    }

    /// Parses the entries of an object whose opening brace was just
    /// consumed, up to and including the closing brace, rejecting a repeated
    /// key with `DuplicateKey`.
    #[verifier::loop_isolation(false)]
    fn parse_object(&mut self, depth: usize) -> (res: Result<SpanValue, ParseError>)
        requires
            old(self).wf(),
        ensures
            final(self).wf(),
            final(self).data() == old(self).data(),
            final(self).limit() == old(self).limit(),
            match res {
                Ok(sv) => {
                    &&& sv is Object
                    &&& spec_object_items(
                        old(self).data(),
                        old(self).pos(),
                        depth as nat,
                        Seq::<Seq<u8>>::empty(),
                    ) == Ok::<(Seq<(Seq<u8>, ValueModel)>, int), ErrorModel>(
                        (span_model(sv, old(self).data())->Object_0, final(self).pos()),
                    )
                    &&& span_wf(sv, old(self).data().len() as int)
                    &&& old(self).pos() < final(self).pos() <= old(self).data().len()
                },
                Err(e) => spec_object_items(
                    old(self).data(),
                    old(self).pos(),
                    depth as nat,
                    Seq::<Seq<u8>>::empty(),
                ) == Err::<(Seq<(Seq<u8>, ValueModel)>, int), ErrorModel>(e@),
            },
        decreases depth, 1int,
    {
        let ghost d = self.data();
        let ghost p0 = self.pos();
        let ghost dep = depth as nat;
        let mut out: Vec<(Span, SpanValue)> = Vec::new();
        proof {
            assert(entry_keys(out@, d) =~= Seq::<Seq<u8>>::empty());
            match spec_object_items(d, p0, dep, Seq::<Seq<u8>>::empty()) {
                Ok(p) => {
                    assert(span_entry_models(out@, d) + p.0 =~= p.0);
                },
                Err(_) => {},
            }
        }
        loop
            invariant
                self.wf(),
                self.data() == d,
                self.limit() == old(self).limit(),
                p0 <= self.pos() <= d.len(),
                forall|j: int|
                    0 <= j < out@.len() ==> span_in_bounds((#[trigger] out@[j]).0, d.len() as int)
                        && span_wf(out@[j].1, d.len() as int),
                spec_object_items(d, p0, dep, Seq::<Seq<u8>>::empty()) == with_prefix_entries(
                    span_entry_models(out@, d),
                    spec_object_items(d, self.pos(), dep, entry_keys(out@, d)),
                ),
            decreases d.len() - self.pos(),
        {
            let ghost cur = self.pos();
            let ghost prefix = span_entry_models(out@, d);
            let ghost seen = entry_keys(out@, d);
            proof {
                lemma_ws_end(d, cur);
            }
            match self.skip_whitespace_no_eof() {
                Err(e) => {
                    return Err(e);
                },
                Ok(_) => {},
            }
            let c = self.stream.current_unchecked();
            if c == OBJECT_CLOSE {
                if out.len() == 0 {
                    self.stream.skip();
                    proof {
                        assert(prefix + Seq::<(Seq<u8>, ValueModel)>::empty() =~= prefix);
                    }
                    return Ok(SpanValue::Object(out));
                } else {
                    return Err(ParseError::UnexpectedSymbol(OBJECT_CLOSE));
                }
            } else if c == STRING_BOUNDARY {
                let ksp = match self.scan_string() {
                    Err(e) => {
                        return Err(e);
                    },
                    Ok(sp) => sp,
                };
                let ghost key = span_seq(ksp, d);
                let ghost qk = self.pos();
                proof {
                    lemma_ws_end(d, qk);
                }
                match self.skip_whitespace_no_eof() {
                    Err(e) => {
                        return Err(e);
                    },
                    Ok(_) => {},
                }
                let ghost r2 = self.pos();
                let c2 = self.stream.current_unchecked();
                if c2 != OBJECT_KV_DELIMITER {
                    return Err(ParseError::UnexpectedSymbol(c2));
                }
                self.stream.skip();
                let sv = match self.parse_value(depth) {
                    Err(e) => {
                        return Err(e);
                    },
                    Ok(sv) => sv,
                };
                let ghost q = self.pos();
                proof {
                    assert(next_scan_pos(d, r2 + 1, q) == q);
                    lemma_ws_end(d, q);
                }
                // Duplicate-key detection against the entries already read.
                let key_bytes = self.stream.slice_unchecked(ksp.start, ksp.end);
                let mut j: usize = 0;
                let mut found = false;
                while j < out.len()
                    invariant
                        0 <= j <= out@.len(),
                        found ==> seen.contains(key),
                        !found ==> forall|x: int|
                            0 <= x < j ==> span_seq((#[trigger] out@[x]).0, d) != key,
                    decreases out@.len() - j,
                {
                    let prev = &out[j];
                    let prev_bytes = self.stream.slice_unchecked(prev.0.start, prev.0.end);
                    if slices_equal(key_bytes, prev_bytes) {
                        proof {
                            assert(entry_keys(out@, d)[j as int] == key);
                        }
                        found = true;
                    }
                    j = j + 1;
                }
                if found {
                    let key_vec = vstd::slice::slice_to_vec(key_bytes);
                    return Err(ParseError::DuplicateKey(key_vec));
                }
                proof {
                    assert(!seen.contains(key)) by {
                        if seen.contains(key) {
                            let x = choose|x: int| 0 <= x < seen.len() && seen[x] == key;
                            assert(span_seq(out@[x].0, d) == key);
                        }
                    };
                }
                let ghost out0 = out@;
                out.push((ksp, sv));
                proof {
                    lemma_span_entry_models_push(out0, (ksp, sv), d);
                    lemma_entry_keys_push(out0, (ksp, sv), d);
                    assert(span_entry_models(out@, d) == prefix.push((key, span_model(sv, d))));
                    assert(entry_keys(out@, d) == seen.push(key));
                }
                match self.skip_whitespace_no_eof() {
                    Err(e) => {
                        return Err(e);
                    },
                    Ok(_) => {},
                }
                let ghost r3 = self.pos();
                let c3 = self.stream.current_unchecked();
                if c3 == OBJECT_ENTRY_DELIMITER {
                    self.stream.skip();
                    proof {
                        match spec_object_items(d, r3 + 1, dep, seen.push(key)) {
                            Ok(p) => {
                                assert(prefix + (seq![(key, span_model(sv, d))] + p.0)
                                    =~= prefix.push((key, span_model(sv, d))) + p.0);
                            },
                            Err(_) => {},
                        }
                    }
                } else if c3 == OBJECT_CLOSE {
                    self.stream.skip();
                    proof {
                        assert(prefix + seq![(key, span_model(sv, d))] =~= prefix.push(
                            (key, span_model(sv, d)),
                        ));
                        lemma_span_entries_wf(out@, d.len() as int);
                    }
                    return Ok(SpanValue::Object(out));
                } else {
                    return Err(ParseError::UnexpectedSymbol(c3));
                }
            } else {
                return Err(ParseError::UnexpectedSymbol(c));
            }
        }
    }

    /// Parses a single value from the input and returns the
    /// position-indexed form of the tree, resetting the cursor to the start
    /// first, so the parser may be reused. Bytes after the first value are
    /// ignored.
    pub fn parse_spans(&mut self) -> (res: Result<SpanValue, ParseError>)
        requires
            old(self).wf(),
        ensures
            final(self).wf(),
            final(self).data() == old(self).data(),
            final(self).limit() == old(self).limit(),
            match res {
                Ok(sv) => span_wf(sv, old(self).data().len() as int) && spec_parse(
                    old(self).data(),
                    old(self).limit(),
                ) == Ok::<ValueModel, ErrorModel>(span_model(sv, old(self).data())),
                Err(e) => spec_parse(old(self).data(), old(self).limit()) == Err::<
                    ValueModel,
                    ErrorModel,
                >(e@),
            },
    {
        self.stream.reset_to_start();
        let limit = self.depth_limit;
        match self.parse_value(limit) {
            Ok(sv) => Ok(sv),
            Err(e) => Err(e),
        }
    }

    /// Parses a single value from the input, resetting the cursor to the
    /// start first, so the parser may be reused. The result is pinned to the
    /// specification-level parse of the input bytes under this parser's
    /// depth limit; bytes after the first value are ignored.
    pub fn parse(&mut self) -> (res: Result<Value<'a>, ParseError>)
        requires
            old(self).wf(),
        ensures
            final(self).wf(),
            final(self).data() == old(self).data(),
            final(self).limit() == old(self).limit(),
            match res {
                Ok(v) => spec_parse(old(self).data(), old(self).limit()) == Ok::<
                    ValueModel,
                    ErrorModel,
                >(v@),
                Err(e) => spec_parse(old(self).data(), old(self).limit()) == Err::<
                    ValueModel,
                    ErrorModel,
                >(e@),
            },
    {
        match self.parse_spans() {
            Ok(sv) => {
                let n = self.stream.length();
                let whole = self.stream.slice_unchecked(0, n);
                proof {
                    assert(whole@ =~= old(self).data());
                }
                Ok(to_value(&sv, whole))
            },
            Err(e) => Err(e),
        }
    }
}

} // verus!
