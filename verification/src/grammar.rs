use crate::util::{
    is_digit_byte, is_number_token_byte, is_numeric_or_negative_byte, is_whitespace_byte,
    ARRAY_CLOSE, ARRAY_DELIMITER, ARRAY_OPEN, ESCAPE, EXPONENT, FALSE_IDENT, NEGATIVE,
    NULL_IDENT, NUMBER_DECIMAL_DELIMITER, OBJECT_CLOSE, OBJECT_ENTRY_DELIMITER,
    OBJECT_KV_DELIMITER, OBJECT_OPEN, POSITIVE, STRING_BOUNDARY, TRUE_IDENT,
};
use vstd::prelude::*;

verus! {

/// The mathematical form of a parsed value: strings, numbers and object keys
/// are byte sequences taken verbatim from the input, an object is the
/// sequence of its entries in source order with pairwise distinct keys, and
/// `Nothing` stands for the sentinel that never appears inside a finished
/// tree.
pub enum ValueModel {
    /// A string: the raw bytes between its quotes, escapes included.
    String(Seq<u8>),
    /// A number: the raw bytes of its numeric token.
    Number(Seq<u8>),
    /// A boolean.
    Boolean(bool),
    /// An object: its entries in source order.
    Object(Seq<(Seq<u8>, ValueModel)>),
    /// An array: its elements in source order.
    Array(Seq<ValueModel>),
    /// Null.
    Null,
    /// The absence sentinel, distinct from `Null`.
    Nothing,
}

/// The mathematical form of a parse error.
pub enum ErrorModel {
    /// A byte appeared where the grammar disallows it.
    UnexpectedSymbol(u8),
    /// The input ended while more was required.
    UnexpectedEndOfInput,
    /// A numeric token was accumulated that does not denote a number.
    MalformedNumber,
    /// An object defined the same key twice.
    DuplicateKey(Seq<u8>),
    /// The input nests arrays and objects deeper than the configured limit.
    DepthLimitExceeded,
}

/// The first position at or after `pos` that does not hold a whitespace byte,
/// or the length of `s` if only whitespace remains.
pub open spec fn ws_end(s: Seq<u8>, pos: int) -> int
    decreases s.len() - pos
        when 0 <= pos <= s.len()
{
    if pos >= s.len() {
        pos
    } else if is_whitespace_byte(s[pos]) {
        ws_end(s, pos + 1)
    } else {
        pos
    }
}

pub proof fn lemma_ws_end(s: Seq<u8>, pos: int)
    requires
        0 <= pos <= s.len(),
    ensures
        pos <= ws_end(s, pos) <= s.len(),
        ws_end(s, pos) < s.len() ==> !is_whitespace_byte(s[ws_end(s, pos)]),
        forall|j: int| pos <= j < ws_end(s, pos) ==> is_whitespace_byte(s[j]),
    decreases s.len() - pos,
{
    if pos < s.len() && is_whitespace_byte(s[pos]) {
        lemma_ws_end(s, pos + 1);
    }
}

/// The position of the closing quote of a string whose content starts at
/// `pos`, or `None` if the input ends first. A backslash skips the byte that
/// follows it unconditionally.
pub open spec fn string_end(s: Seq<u8>, pos: int) -> Option<int>
    decreases s.len() - pos
        when 0 <= pos <= s.len()
{
    if pos >= s.len() {
        None
    } else if s[pos] == ESCAPE {
        if pos + 2 <= s.len() {
            string_end(s, pos + 2)
        } else {
            None
        }
    } else if s[pos] == STRING_BOUNDARY {
        Some(pos)
    } else {
        string_end(s, pos + 1)
    }
}

pub proof fn lemma_string_end(s: Seq<u8>, pos: int)
    requires
        0 <= pos <= s.len(),
    ensures
        string_end(s, pos) matches Some(e) ==> pos <= e < s.len() && s[e] == STRING_BOUNDARY,
    decreases s.len() - pos,
{
    if pos < s.len() {
        if s[pos] == ESCAPE {
            if pos + 2 <= s.len() {
                lemma_string_end(s, pos + 2);
            }
        } else if s[pos] != STRING_BOUNDARY {
            lemma_string_end(s, pos + 1);
        }
    }
}

/// The first position at or after `pos` that does not hold a byte of the
/// numeric accumulation set, or the length of `s`.
pub open spec fn number_end(s: Seq<u8>, pos: int) -> int
    decreases s.len() - pos
        when 0 <= pos <= s.len()
{
    if pos >= s.len() {
        pos
    } else if is_number_token_byte(s[pos]) {
        number_end(s, pos + 1)
    } else {
        pos
    }
}

/// Every byte of `t` is an ASCII digit.
pub open spec fn all_digit_bytes(t: Seq<u8>) -> bool {
    forall|i: int| 0 <= i < t.len() ==> is_digit_byte(t[i])
}

/// A valid mantissa: every byte a digit or the decimal point, at least one
/// digit, and at most one decimal point.
pub open spec fn valid_mantissa(t: Seq<u8>) -> bool {
    &&& forall|i: int|
        0 <= i < t.len() ==> (is_digit_byte(t[i]) || t[i] == NUMBER_DECIMAL_DELIMITER)
    &&& exists|i: int| 0 <= i < t.len() && is_digit_byte(t[i])
    &&& forall|i: int, j: int|
        0 <= i < j < t.len() ==> !(t[i] == NUMBER_DECIMAL_DELIMITER && t[j]
            == NUMBER_DECIMAL_DELIMITER)
}

/// A valid exponent part (the bytes after the exponent marker): an optional
/// sign followed by one or more digits.
pub open spec fn valid_exponent(t: Seq<u8>) -> bool {
    let d = if t.len() > 0 && (t[0] == POSITIVE || t[0] == NEGATIVE) {
        t.subrange(1, t.len() as int)
    } else {
        t
    };
    d.len() > 0 && all_digit_bytes(d)
}

/// The index of the first exponent marker in `t`, if any.
pub open spec fn exponent_split(t: Seq<u8>) -> Option<int>
    decreases t.len(),
{
    if t.len() == 0 {
        None
    } else if t[0] == EXPONENT {
        Some(0int)
    } else {
        match exponent_split(t.subrange(1, t.len() as int)) {
            Some(k) => Some(k + 1),
            None => None,
        }
    }
}

pub proof fn lemma_exponent_split(t: Seq<u8>)
    ensures
        match exponent_split(t) {
            Some(k) => 0 <= k < t.len() && t[k] == EXPONENT && forall|j: int|
                0 <= j < k ==> t[j] != EXPONENT,
            None => forall|j: int| 0 <= j < t.len() ==> t[j] != EXPONENT,
        },
    decreases t.len(),
{
    if t.len() > 0 && t[0] != EXPONENT {
        let rest = t.subrange(1, t.len() as int);
        lemma_exponent_split(rest);
        assert(forall|j: int| 0 <= j < rest.len() ==> rest[j] == t[j + 1]);
        match exponent_split(rest) {
            Some(k) => {
                assert(exponent_split(t) == Some(k + 1));
                assert(t[k + 1] == rest[k]);
                assert forall|j: int| 0 <= j < k + 1 implies t[j] != EXPONENT by {
                    if j > 0 {
                        assert(t[j] == rest[j - 1]);
                    }
                };
            },
            None => {
                assert(exponent_split(t) == None::<int>);
                assert forall|j: int| 0 <= j < t.len() implies t[j] != EXPONENT by {
                    if j > 0 {
                        assert(t[j] == rest[j - 1]);
                    }
                };
            },
        }
    }
}

/// The split is determined by its characterisation: if `t[k]` is the first
/// exponent marker, `exponent_split(t)` is `Some(k)`; if there is none, it is
/// `None`.
pub proof fn lemma_exponent_split_at(t: Seq<u8>, k: int)
    requires
        0 <= k < t.len(),
        t[k] == EXPONENT,
        forall|j: int| 0 <= j < k ==> t[j] != EXPONENT,
    ensures
        exponent_split(t) == Some(k),
    decreases t.len(),
{
    if k > 0 {
        let rest = t.subrange(1, t.len() as int);
        assert(forall|j: int| 0 <= j < rest.len() ==> rest[j] == t[j + 1]);
        lemma_exponent_split_at(rest, k - 1);
    }
}

pub proof fn lemma_exponent_split_none(t: Seq<u8>)
    requires
        forall|j: int| 0 <= j < t.len() ==> t[j] != EXPONENT,
    ensures
        exponent_split(t) == None::<int>,
    decreases t.len(),
{
    if t.len() > 0 {
        let rest = t.subrange(1, t.len() as int);
        assert(forall|j: int| 0 <= j < rest.len() ==> rest[j] == t[j + 1]);
        lemma_exponent_split_none(rest);
    }
}

/// Whether the accumulated token `t` denotes a number: an optional leading
/// minus, then a mantissa, then an optional exponent marker with a signed
/// digit run. This is exactly the grammar under which a 64-bit float
/// conversion of the token succeeds, restricted to the accumulation set.
pub open spec fn valid_number_token(t: Seq<u8>) -> bool {
    let m = if t.len() > 0 && t[0] == NEGATIVE {
        t.subrange(1, t.len() as int)
    } else {
        t
    };
    match exponent_split(m) {
        None => valid_mantissa(m),
        Some(k) => valid_mantissa(m.subrange(0, k)) && valid_exponent(
            m.subrange(k + 1, m.len() as int),
        ),
    }
}

/// A token that denotes a number is never empty: it holds a digit.
pub proof fn lemma_valid_number_token_nonempty(t: Seq<u8>)
    requires
        valid_number_token(t),
    ensures
        t.len() > 0,
{
    if t.len() == 0 {
        assert(exponent_split(t) == None::<int>);
        assert(!valid_mantissa(t));
    }
}

/// The position from which scanning continues after a nested value parsed at
/// `base` reported the continuation `q`. In every run the parser actually
/// takes, `base < q <= s.len()` holds and the clamp is the identity; the
/// other arms only keep the definitions below well-founded.
pub open spec fn next_scan_pos(s: Seq<u8>, base: int, q: int) -> int {
    if base < q <= s.len() {
        q
    } else if base + 1 <= s.len() {
        base + 1
    } else {
        s.len() as int
    }
}

/// Whether `s` holds the four bytes of `true` at `p`.
pub open spec fn matches_true(s: Seq<u8>, p: int) -> bool {
    p + 4 <= s.len() && s[p] == TRUE_IDENT && s[p + 1] == 114 && s[p + 2] == 117 && s[p + 3]
        == 101
}

/// Whether `s` holds the five bytes of `false` at `p`.
pub open spec fn matches_false(s: Seq<u8>, p: int) -> bool {
    p + 5 <= s.len() && s[p] == FALSE_IDENT && s[p + 1] == 97 && s[p + 2] == 108 && s[p + 3]
        == 115 && s[p + 4] == 101
}

/// Whether `s` holds the four bytes of `null` at `p`.
pub open spec fn matches_null(s: Seq<u8>, p: int) -> bool {
    p + 4 <= s.len() && s[p] == NULL_IDENT && s[p + 1] == 117 && s[p + 2] == 108 && s[p + 3]
        == 108
}

/// A boolean literal at `p`: the next four bytes spell `true`, or the next
/// five spell `false`; anything else is an unexpected symbol at `p`.
pub open spec fn spec_boolean(s: Seq<u8>, p: int) -> Result<(ValueModel, int), ErrorModel>
    recommends
        0 <= p < s.len(),
{
    if matches_true(s, p) {
        Ok((ValueModel::Boolean(true), p + 4))
    } else if matches_false(s, p) {
        Ok((ValueModel::Boolean(false), p + 5))
    } else {
        Err(ErrorModel::UnexpectedSymbol(s[p]))
    }
}

/// The null literal at `p`: the next four bytes spell `null`.
pub open spec fn spec_null(s: Seq<u8>, p: int) -> Result<(ValueModel, int), ErrorModel>
    recommends
        0 <= p < s.len(),
{
    if matches_null(s, p) {
        Ok((ValueModel::Null, p + 4))
    } else {
        Err(ErrorModel::UnexpectedSymbol(s[p]))
    }
}

/// A string whose opening quote stands at `p`: the content is the raw bytes
/// up to the first unescaped closing quote, and scanning continues after that
/// quote. An input that ends first is an unexpected end of input.
pub open spec fn spec_string(s: Seq<u8>, p: int) -> Result<(Seq<u8>, int), ErrorModel>
    recommends
        0 <= p < s.len(),
{
    match string_end(s, p + 1) {
        Some(e) => Ok((s.subrange(p + 1, e), e + 1)),
        None => Err(ErrorModel::UnexpectedEndOfInput),
    }
}

/// A number starting at `p`: the token is the whole run of accumulation-set
/// bytes from `p`, and it must denote a number, else the parse fails with
/// `MalformedNumber`.
pub open spec fn spec_number(s: Seq<u8>, p: int) -> Result<(ValueModel, int), ErrorModel>
    recommends
        0 <= p <= s.len(),
{
    let e = number_end(s, p);
    let t = s.subrange(p, e);
    if valid_number_token(t) {
        Ok((ValueModel::Number(t), e))
    } else {
        Err(ErrorModel::MalformedNumber)
    }
}

/// One value scanned from `pos`: leading whitespace is skipped, the first
/// significant byte selects the form, and the result carries the position
/// just after the value. `depth` bounds how many arrays and objects may
/// still be entered.
pub open spec fn spec_value(s: Seq<u8>, pos: int, depth: nat) -> Result<
    (ValueModel, int),
    ErrorModel,
>
    decreases depth, s.len() - pos, 0int
        when 0 <= pos <= s.len()
{
    let p = ws_end(s, pos);
    if p >= s.len() {
        Err(ErrorModel::UnexpectedEndOfInput)
    } else {
        let c = s[p];
        if c == TRUE_IDENT || c == FALSE_IDENT {
            spec_boolean(s, p)
        } else if c == NULL_IDENT {
            spec_null(s, p)
        } else if c == STRING_BOUNDARY {
            match spec_string(s, p) {
                Ok((b, q)) => Ok((ValueModel::String(b), q)),
                Err(e) => Err(e),
            }
        } else if c == ARRAY_OPEN {
            if depth == 0 {
                Err(ErrorModel::DepthLimitExceeded)
            } else {
                proof {
                    lemma_ws_end(s, pos);
                }
                match spec_array_items(s, p + 1, (depth - 1) as nat, false) {
                    Ok((items, q)) => Ok((ValueModel::Array(items), q)),
                    Err(e) => Err(e),
                }
            }
        } else if c == OBJECT_OPEN {
            if depth == 0 {
                Err(ErrorModel::DepthLimitExceeded)
            } else {
                proof {
                    lemma_ws_end(s, pos);
                }
                match spec_object_items(s, p + 1, (depth - 1) as nat, Seq::<Seq<u8>>::empty()) {
                    Ok((entries, q)) => Ok((ValueModel::Object(entries), q)),
                    Err(e) => Err(e),
                }
            }
        } else if is_numeric_or_negative_byte(c) {
            spec_number(s, p)
        } else {
            Err(ErrorModel::UnexpectedSymbol(c))
        }
    }
}

/// The elements of an array whose opening bracket was consumed, scanned from
/// `pos`. A closing bracket finishes the array; a delimiter demands a value
/// after it; a bare value is accepted only while no element has been read.
pub open spec fn spec_array_items(s: Seq<u8>, pos: int, depth: nat, has_read: bool) -> Result<
    (Seq<ValueModel>, int),
    ErrorModel,
>
    decreases depth, s.len() - pos, 1int
        when 0 <= pos <= s.len()
{
    proof {
        lemma_ws_end(s, pos);
    }
    let r = ws_end(s, pos);
    if r >= s.len() {
        Err(ErrorModel::UnexpectedEndOfInput)
    } else {
        let c = s[r];
        if c == ARRAY_DELIMITER {
            if r + 1 >= s.len() {
                Err(ErrorModel::UnexpectedEndOfInput)
            } else {
                match spec_value(s, r + 1, depth) {
                    Err(e) => Err(e),
                    Ok((v, q)) => match spec_array_items(
                        s,
                        next_scan_pos(s, r + 1, q),
                        depth,
                        true,
                    ) {
                        Err(e) => Err(e),
                        Ok((rest, qf)) => Ok((seq![v] + rest, qf)),
                    },
                }
            }
        } else if c == ARRAY_CLOSE {
            Ok((Seq::<ValueModel>::empty(), r + 1))
        } else if !has_read {
            match spec_value(s, r, depth) {
                Err(e) => Err(e),
                Ok((v, q)) => match spec_array_items(s, next_scan_pos(s, r, q), depth, true) {
                    Err(e) => Err(e),
                    Ok((rest, qf)) => Ok((seq![v] + rest, qf)),
                },
            }
        } else {
            Err(ErrorModel::UnexpectedSymbol(c))
        }
    }
}

/// The entries of an object whose opening brace was consumed, scanned from
/// `pos`. `seen` holds the keys of the entries already read: a closing brace
/// is accepted in first position only while `seen` is empty, and a key that
/// occurs in `seen` fails with `DuplicateKey`.
pub open spec fn spec_object_items(
    s: Seq<u8>,
    pos: int,
    depth: nat,
    seen: Seq<Seq<u8>>,
) -> Result<(Seq<(Seq<u8>, ValueModel)>, int), ErrorModel>
    decreases depth, s.len() - pos, 1int
        when 0 <= pos <= s.len()
{
    proof {
        lemma_ws_end(s, pos);
    }
    let r = ws_end(s, pos);
    if r >= s.len() {
        Err(ErrorModel::UnexpectedEndOfInput)
    } else if s[r] == OBJECT_CLOSE {
        if seen.len() == 0 {
            Ok((Seq::<(Seq<u8>, ValueModel)>::empty(), r + 1))
        } else {
            Err(ErrorModel::UnexpectedSymbol(OBJECT_CLOSE))
        }
    } else if s[r] == STRING_BOUNDARY {
        match spec_string(s, r) {
            Err(e) => Err(e),
            Ok((key, qk)) => {
                proof {
                    lemma_string_end(s, r + 1);
                    lemma_ws_end(s, qk);
                }
                let r2 = ws_end(s, qk);
                if r2 >= s.len() {
                    Err(ErrorModel::UnexpectedEndOfInput)
                } else if s[r2] != OBJECT_KV_DELIMITER {
                    Err(ErrorModel::UnexpectedSymbol(s[r2]))
                } else {
                    match spec_value(s, r2 + 1, depth) {
                        Err(e) => Err(e),
                        Ok((v, q)) => {
                            if seen.contains(key) {
                                Err(ErrorModel::DuplicateKey(key))
                            } else {
                                let q2 = next_scan_pos(s, r2 + 1, q);
                                proof {
                                    lemma_ws_end(s, q2);
                                }
                                let r3 = ws_end(s, q2);
                                if r3 >= s.len() {
                                    Err(ErrorModel::UnexpectedEndOfInput)
                                } else if s[r3] == OBJECT_ENTRY_DELIMITER {
                                    match spec_object_items(s, r3 + 1, depth, seen.push(key)) {
                                        Err(e) => Err(e),
                                        Ok((rest, qf)) => Ok((seq![(key, v)] + rest, qf)),
                                    }
                                } else if s[r3] == OBJECT_CLOSE {
                                    Ok((seq![(key, v)], r3 + 1))
                                } else {
                                    Err(ErrorModel::UnexpectedSymbol(s[r3]))
                                }
                            }
                        },
                    }
                }
            },
        }
    } else {
        Err(ErrorModel::UnexpectedSymbol(s[r]))
    }
}

/// The whole parse of `s`: the first value scanned from the start, with any
/// bytes after it ignored. An input of nothing but whitespace is an
/// unexpected end of input.
pub open spec fn spec_parse(s: Seq<u8>, depth_limit: nat) -> Result<ValueModel, ErrorModel> {
    match spec_value(s, 0, depth_limit) {
        Ok((m, _)) => Ok(m),
        Err(e) => Err(e),
    }
}

/// A well-formed tree: the absence sentinel appears nowhere in it, and the
/// keys of every object are pairwise distinct.
pub open spec fn model_wf(m: ValueModel) -> bool
    decreases m,
{
    match m {
        ValueModel::Nothing => false,
        ValueModel::Array(items) => models_wf(items),
        ValueModel::Object(entries) => (forall|i: int, j: int|
            0 <= i < j < entries.len() ==> (#[trigger] entries[i]).0 != (#[trigger] entries[j]).0)
            && entry_models_wf(entries),
        _ => true,
    }
}

/// Whether every tree of `items` is well formed.
pub open spec fn models_wf(items: Seq<ValueModel>) -> bool
    decreases items,
{
    if items.len() == 0 {
        true
    } else {
        model_wf(items[0]) && models_wf(items.subrange(1, items.len() as int))
    }
}

/// Whether the value of every entry is well formed.
pub open spec fn entry_models_wf(entries: Seq<(Seq<u8>, ValueModel)>) -> bool
    decreases entries,
{
    if entries.len() == 0 {
        true
    } else {
        model_wf(entries[0].1) && entry_models_wf(entries.subrange(1, entries.len() as int))
    }
}

/// Parsing is deterministic: the parse is a function of the input bytes and
/// the depth limit alone, so re-parsing identical bytes yields a
/// structurally equal tree.
pub proof fn lemma_parse_deterministic(
    s1: Seq<u8>,
    s2: Seq<u8>,
    depth_limit: nat,
    m1: ValueModel,
    m2: ValueModel,
)
    requires
        s1 == s2,
        spec_parse(s1, depth_limit) == Ok::<ValueModel, ErrorModel>(m1),
        spec_parse(s2, depth_limit) == Ok::<ValueModel, ErrorModel>(m2),
    ensures
        m1 == m2,
{
}

proof fn lemma_spec_value_wf(s: Seq<u8>, pos: int, depth: nat)
    requires
        0 <= pos <= s.len(),
    ensures
        spec_value(s, pos, depth) matches Ok(p) ==> model_wf(p.0),
    decreases depth, s.len() - pos, 0int,
{
    lemma_ws_end(s, pos);
    let p = ws_end(s, pos);
    if p < s.len() {
        let c = s[p];
        if c == ARRAY_OPEN && depth > 0 {
            lemma_spec_array_items_wf(s, p + 1, (depth - 1) as nat, false);
        } else if c == OBJECT_OPEN && depth > 0 {
            lemma_spec_object_items_wf(s, p + 1, (depth - 1) as nat, Seq::<Seq<u8>>::empty());
        }
    }
}

proof fn lemma_spec_array_items_wf(s: Seq<u8>, pos: int, depth: nat, has_read: bool)
    requires
        0 <= pos <= s.len(),
    ensures
        spec_array_items(s, pos, depth, has_read) matches Ok(p) ==> models_wf(p.0),
    decreases depth, s.len() - pos, 1int,
{
    lemma_ws_end(s, pos);
    let r = ws_end(s, pos);
    if r < s.len() {
        let c = s[r];
        if c == ARRAY_DELIMITER && r + 1 < s.len() {
            lemma_spec_value_wf(s, r + 1, depth);
            match spec_value(s, r + 1, depth) {
                Ok(vp) => {
                    let q3 = next_scan_pos(s, r + 1, vp.1);
                    lemma_spec_array_items_wf(s, q3, depth, true);
                    match spec_array_items(s, q3, depth, true) {
                        Ok(rp) => {
                            let whole = seq![vp.0] + rp.0;
                            assert(whole.subrange(1, whole.len() as int) =~= rp.0);
                            assert(models_wf(whole));
                        },
                        Err(_) => {},
                    }
                },
                Err(_) => {},
            }
        } else if c != ARRAY_DELIMITER && c != ARRAY_CLOSE && !has_read {
            lemma_spec_value_wf(s, r, depth);
            match spec_value(s, r, depth) {
                Ok(vp) => {
                    let q3 = next_scan_pos(s, r, vp.1);
                    lemma_spec_array_items_wf(s, q3, depth, true);
                    match spec_array_items(s, q3, depth, true) {
                        Ok(rp) => {
                            let whole = seq![vp.0] + rp.0;
                            assert(whole.subrange(1, whole.len() as int) =~= rp.0);
                            assert(models_wf(whole));
                        },
                        Err(_) => {},
                    }
                },
                Err(_) => {},
            }
        }
    }
}

proof fn lemma_spec_object_items_wf(s: Seq<u8>, pos: int, depth: nat, seen: Seq<Seq<u8>>)
    requires
        0 <= pos <= s.len(),
    ensures
        spec_object_items(s, pos, depth, seen) matches Ok(p) ==> {
            &&& entry_models_wf(p.0)
            &&& forall|i: int, j: int|
                0 <= i < j < p.0.len() ==> (#[trigger] p.0[i]).0 != (#[trigger] p.0[j]).0
            &&& forall|i: int| 0 <= i < p.0.len() ==> !seen.contains((#[trigger] p.0[i]).0)
        },
    decreases depth, s.len() - pos, 1int,
{
    lemma_ws_end(s, pos);
    let r = ws_end(s, pos);
    if r < s.len() && s[r] == STRING_BOUNDARY {
        lemma_string_end(s, r + 1);
        match spec_string(s, r) {
            Ok((key, qk)) => {
                lemma_ws_end(s, qk);
                let r2 = ws_end(s, qk);
                if r2 < s.len() && s[r2] == OBJECT_KV_DELIMITER {
                    lemma_spec_value_wf(s, r2 + 1, depth);
                    match spec_value(s, r2 + 1, depth) {
                        Ok(vp) => {
                            if !seen.contains(key) {
                                let q2 = next_scan_pos(s, r2 + 1, vp.1);
                                lemma_ws_end(s, q2);
                                let r3 = ws_end(s, q2);
                                if r3 < s.len() && s[r3] == OBJECT_ENTRY_DELIMITER {
                                    let seen2 = seen.push(key);
                                    lemma_spec_object_items_wf(s, r3 + 1, depth, seen2);
                                    match spec_object_items(s, r3 + 1, depth, seen2) {
                                        Ok(rp) => {
                                            let whole = seq![(key, vp.0)] + rp.0;
                                            assert(whole.subrange(1, whole.len() as int)
                                                =~= rp.0);
                                            assert(entry_models_wf(whole));
                                            assert(seen2[seen.len() as int] == key);
                                            assert(seen2.contains(key));
                                            assert forall|i: int|
                                                0 <= i < rp.0.len() implies (#[trigger] rp.0[i]).0
                                                != key && !seen.contains(rp.0[i].0) by {
                                                assert(!seen2.contains(rp.0[i].0));
                                                if seen.contains(rp.0[i].0) {
                                                    let w = choose|w: int|
                                                        0 <= w < seen.len() && seen[w]
                                                            == rp.0[i].0;
                                                    assert(seen2[w] == rp.0[i].0);
                                                }
                                            };
                                            assert forall|i: int, j: int|
                                                0 <= i < j < whole.len() implies (
                                            #[trigger] whole[i]).0 != (#[trigger] whole[j]).0 by {
                                                if i == 0 {
                                                    assert(whole[j] == rp.0[j - 1]);
                                                } else {
                                                    assert(whole[i] == rp.0[i - 1]);
                                                    assert(whole[j] == rp.0[j - 1]);
                                                }
                                            };
                                        },
                                        Err(_) => {},
                                    }
                                } else if r3 < s.len() && s[r3] == OBJECT_CLOSE {
                                    let whole = seq![(key, vp.0)];
                                    assert(whole.subrange(1, whole.len() as int)
                                        =~= Seq::<(Seq<u8>, ValueModel)>::empty());
                                    assert(entry_models_wf(Seq::<(Seq<u8>, ValueModel)>::empty()));
                                    assert(whole[0] == (key, vp.0));
                                    assert(entry_models_wf(whole));
                                }
                            }
                        },
                        Err(_) => {},
                    }
                }
            },
            Err(_) => {},
        }
    }
}

/// The tree of a successful parse is well formed: the absence sentinel
/// appears nowhere in it, and the keys of every object in it are pairwise
/// distinct.
pub proof fn lemma_parse_tree_wf(s: Seq<u8>, depth_limit: nat, m: ValueModel)
    requires
        spec_parse(s, depth_limit) == Ok::<ValueModel, ErrorModel>(m),
    ensures
        model_wf(m),
{
    lemma_spec_value_wf(s, 0, depth_limit);
}

} // verus!
