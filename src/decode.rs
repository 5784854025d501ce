use vstd::prelude::*;
use vstd::slice::{slice_subrange, slice_to_vec};
use crate::dict::{dict_insert, dict_put};
use crate::digits::{
    canonical_digits, digit_end, digits_value, is_digit, lemma_digit_end_bounds,
    lemma_digits_monotone, lemma_digits_nonneg, lemma_digits_step,
};
use crate::value::{entries_of, lemma_entries_put, lemma_terms_push, terms_of, Term, Value};

verus! {

/// The deepest nesting of lists and dictionaries that the decoder accepts.
pub const MAX_DEPTH: usize = 512;

/// Why a byte sequence is not a bencode term; `at` is the offset of the term or
/// byte in question.
#[derive(Debug, Clone, Copy, PartialEq, Eq, Structural)]
pub enum DecodeError {
    /// Input ended inside a term, or before any term.
    UnexpectedEnd,
    /// An integer literal that is not a canonical decimal `i64`.
    InvalidInteger { at: usize },
    /// A byte-string length prefix that is not canonical decimal.
    InvalidLength { at: usize },
    /// A byte string longer than what is left of the input.
    Truncated { at: usize },
    /// A dictionary key that is not a byte string.
    NonStringKey { at: usize },
    /// A byte that cannot start a term.
    UnexpectedByte { at: usize },
    /// Lists and dictionaries nested deeper than `MAX_DEPTH`.
    TooDeep { at: usize },
}

pub open spec fn parse_int(s: Seq<u8>, pos: int) -> Option<(Term, int)> {
    let len = s.len();
    let neg = pos + 1 < len && s[pos + 1] == 45;
    let start = if neg { pos + 2 } else { pos + 1 };
    let end = digit_end(s, start);
    let d = s.subrange(start, end);
    if end >= s.len() || s[end] != 101 || !canonical_digits(d) {
        None
    } else if neg && (d[0] == 48 || digits_value(d) > 9223372036854775808) {
        None
    } else if !neg && digits_value(d) > 9223372036854775807 {
        None
    } else {
        Some((Term::Int(if neg { -digits_value(d) } else { digits_value(d) }), end + 1))
    }
}

pub open spec fn parse_bytes(s: Seq<u8>, pos: int) -> Option<(Term, int)> {
    let end = digit_end(s, pos);
    let d = s.subrange(pos, end);
    if end >= s.len() || s[end] != 58 || !canonical_digits(d) || end + 1 + digits_value(d) > s.len() {
        None
    } else {
        Some((Term::Bytes(s.subrange(end + 1, end + 1 + digits_value(d))), end + 1 + digits_value(d)))
    }
}

/// The term that starts at `pos`, and the offset just after it; `depth` is how
/// many more levels of lists and dictionaries may open.
pub open spec fn parse_at(s: Seq<u8>, pos: int, depth: nat) -> Option<(Term, int)>
    decreases s.len() - pos, 0int,
{
    if pos < 0 || pos >= s.len() {
        None
    } else if s[pos] == 105 {
        parse_int(s, pos)
    } else if is_digit(s[pos]) {
        parse_bytes(s, pos)
    } else if s[pos] == 108 && depth > 0 {
        match parse_items(s, pos + 1, (depth - 1) as nat, Seq::empty()) {
            Some((items, e)) => Some((Term::List(items), e)),
            None => None,
        }
    } else if s[pos] == 100 && depth > 0 {
        match parse_entries(s, pos + 1, (depth - 1) as nat, Seq::empty()) {
            Some((entries, e)) => Some((Term::Dict(entries), e)),
            None => None,
        }
    } else {
        None
    }
}

/// List items from `pos` up to and including the closing `e`, after `acc`.
pub open spec fn parse_items(s: Seq<u8>, pos: int, depth: nat, acc: Seq<Term>) -> Option<(Seq<Term>, int)>
    decreases s.len() - pos, 1int,
{
    if pos < 0 || pos >= s.len() {
        None
    } else if s[pos] == 101 {
        Some((acc, pos + 1))
    } else {
        match parse_at(s, pos, depth) {
            Some((t, e)) => if e <= pos || e > s.len() {
                None
            } else {
                parse_items(s, e, depth, acc.push(t))
            },
            None => None,
        }
    }
}

/// Dictionary entries from `pos` up to and including the closing `e`, put into
/// `acc` one after another.
pub open spec fn parse_entries(
    s: Seq<u8>,
    pos: int,
    depth: nat,
    acc: Seq<(Seq<u8>, Term)>,
) -> Option<(Seq<(Seq<u8>, Term)>, int)>
    decreases s.len() - pos, 1int,
{
    if pos < 0 || pos >= s.len() {
        None
    } else if s[pos] == 101 {
        Some((acc, pos + 1))
    } else {
        match parse_at(s, pos, depth) {
            Some((Term::Bytes(k), ke)) => if ke <= pos || ke > s.len() {
                None
            } else {
                match parse_at(s, ke, depth) {
                    Some((v, ve)) => if ve <= ke || ve > s.len() {
                        None
                    } else {
                        parse_entries(s, ve, depth, dict_put(acc, k, v))
                    },
                    None => None,
                }
            },
            _ => None,
        }
    }
}

/// The term at the start of `s` and the length of its encoding.
pub open spec fn decoded_term(s: Seq<u8>) -> Option<(Term, int)> {
    parse_at(s, 0, MAX_DEPTH as nat)
}

/// Reads the digit run at `start`: where it ends, and the number it spells when
/// that is at most `limit`.
fn read_number(s: &[u8], start: usize, limit: u64) -> (r: (usize, Option<u64>))
    requires
        start <= s@.len(),
    ensures
        r.0 as int == digit_end(s@, start as int),
        r.1 is Some <==> digits_value(s@.subrange(start as int, r.0 as int)) <= limit,
        r.1 matches Some(n) ==> n as int == digits_value(s@.subrange(start as int, r.0 as int)),
{
    proof {
        lemma_digit_end_bounds(s@, start as int);
    }
    let mut j: usize = start;
    let mut acc: u64 = 0;
    let mut over = false;
    assert(s@.subrange(start as int, start as int) =~= Seq::<u8>::empty());
    while j < s.len() && 48 <= s[j] && s[j] <= 57
        invariant
            start <= j <= s@.len(),
            digit_end(s@, j as int) == digit_end(s@, start as int),
            forall|m: int| start <= m < j ==> is_digit(#[trigger] s@[m]),
            !over ==> acc as int == digits_value(s@.subrange(start as int, j as int)),
            !over ==> acc <= limit,
            over ==> digits_value(s@.subrange(start as int, j as int)) > limit,
        decreases s.len() - j,
    {
        proof {
            lemma_digits_step(s@, start as int, j as int);
            lemma_digits_monotone(s@, start as int, j as int, j as int);
            assert forall|m: int| 0 <= m < s@.subrange(start as int, j as int).len() implies is_digit(
                #[trigger] s@.subrange(start as int, j as int)[m],
            ) by {
                assert(s@.subrange(start as int, j as int)[m] == s@[start + m]);
            }
            lemma_digits_nonneg(s@.subrange(start as int, j as int));
        }
        if !over {
            let next: u128 = acc as u128 * 10 + (s[j] - 48) as u128;
            if next > limit as u128 {
                over = true;
            } else {
                acc = next as u64;
            }
        }
        j = j + 1;
    }
    if over {
        (j, None)
    } else {
        (j, Some(acc))
    }
}

fn decode_int(s: &[u8], pos: usize) -> (r: Result<(Value, usize), DecodeError>)
    requires
        pos < s@.len(),
        s@[pos as int] == 105,
    ensures
        match parse_int(s@, pos as int) {
            Some((t, e)) => r matches Ok((v, e2)) && v@ == t && e2 as int == e,
            None => r is Err,
        },
        r matches Ok((_, e)) ==> pos < e <= s@.len(),
{
    let len = s.len();
    let neg = pos + 1 < len && s[pos + 1] == 45;
    let start = if neg { pos + 2 } else { pos + 1 };
    let limit: u64 = if neg { 9223372036854775808 } else { 9223372036854775807 };
    let (end, n) = read_number(s, start, limit);
    proof {
        lemma_digit_end_bounds(s@, start as int);
    }
    let ghost d = s@.subrange(start as int, end as int);
    if end >= s.len() || s[end] != 101 || end == start || (s[start] == 48 && end != start + 1) {
        return Err(DecodeError::InvalidInteger { at: pos });
    }
    assert(canonical_digits(d)) by {
        assert(d[0] == s@[start as int]);
    }
    if neg && s[start] == 48 {
        assert(d[0] == s@[start as int]);
        return Err(DecodeError::InvalidInteger { at: pos });
    }
    assert(d[0] == s@[start as int]);
    match n {
        None => Err(DecodeError::InvalidInteger { at: pos }),
        Some(n) => {
            let k: i64 = if !neg {
                n as i64
            } else if n == 9223372036854775808 {
                -9223372036854775808i64
            } else {
                -(n as i64)
            };
            Ok((Value::Integer(k), end + 1))
        },
    }
}

fn decode_bytes(s: &[u8], pos: usize) -> (r: Result<(Value, usize), DecodeError>)
    requires
        pos < s@.len(),
        is_digit(s@[pos as int]),
    ensures
        match parse_bytes(s@, pos as int) {
            Some((t, e)) => r matches Ok((v, e2)) && v@ == t && e2 as int == e,
            None => r is Err,
        },
        r matches Ok((_, e)) ==> pos < e <= s@.len(),
{
    let (end, n) = read_number(s, pos, s.len() as u64);
    proof {
        lemma_digit_end_bounds(s@, pos as int);
    }
    let ghost d = s@.subrange(pos as int, end as int);
    if end >= s.len() || s[end] != 58 || (s[pos] == 48 && end != pos + 1) {
        assert(end > pos ==> d[0] == s@[pos as int]);
        return Err(DecodeError::InvalidLength { at: pos });
    }
    assert(canonical_digits(d)) by {
        assert(d[0] == s@[pos as int]);
    }
    match n {
        None => Err(DecodeError::Truncated { at: pos }),
        Some(n) => {
            if n as usize > s.len() - (end + 1) {
                return Err(DecodeError::Truncated { at: pos });
            }
            let stop = end + 1 + n as usize;
            let payload = slice_to_vec(slice_subrange(s, end + 1, stop));
            Ok((Value::ByteString(payload), stop))
        },
    }
}

/// Decodes the term that starts at `pos`, with at most `depth` more levels of
/// lists and dictionaries.
pub fn decode_at(s: &[u8], pos: usize, depth: usize) -> (r: Result<(Value, usize), DecodeError>)
    requires
        pos <= s@.len(),
    ensures
        match parse_at(s@, pos as int, depth as nat) {
            Some((t, e)) => r matches Ok((v, e2)) && v@ == t && e2 as int == e,
            None => r is Err,
        },
        r matches Ok((_, e)) ==> pos < e <= s@.len(),
    decreases s@.len() - pos,
{
    if pos >= s.len() {
        return Err(DecodeError::UnexpectedEnd);
    }
    let c = s[pos];
    if c == 105 {
        decode_int(s, pos)
    } else if 48 <= c && c <= 57 {
        decode_bytes(s, pos)
    } else if c == 108 || c == 100 {
        if depth == 0 {
            return Err(DecodeError::TooDeep { at: pos });
        }
        if c == 108 {
            decode_list(s, pos, depth)
        } else {
            decode_dict(s, pos, depth)
        }
    } else {
        Err(DecodeError::UnexpectedByte { at: pos })
    }
}

fn decode_list(s: &[u8], pos: usize, depth: usize) -> (r: Result<(Value, usize), DecodeError>)
    requires
        pos < s@.len(),
        s@[pos as int] == 108,
        depth > 0,
    ensures
        match parse_at(s@, pos as int, depth as nat) {
            Some((t, e)) => r matches Ok((v, e2)) && v@ == t && e2 as int == e,
            None => r is Err,
        },
        r matches Ok((_, e)) ==> pos < e <= s@.len(),
    decreases s@.len() - pos, 0int,
{
    let ghost goal = parse_items(s@, pos + 1, (depth - 1) as nat, Seq::empty());
    assert(parse_at(s@, pos as int, depth as nat) == match goal {
        Some((items, e)) => Some((Term::List(items), e)),
        None => None,
    });
    let len = s.len();
    let mut items: Vec<Value> = Vec::new();
    let mut p: usize = pos + 1;
    assert(terms_of(items@) =~= Seq::<Term>::empty());
    loop
        invariant
            pos < p <= s@.len(),
            depth > 0,
            parse_items(s@, p as int, (depth - 1) as nat, terms_of(items@)) == goal,
            parse_at(s@, pos as int, depth as nat) == match goal {
                Some((items, e)) => Some((Term::List(items), e)),
                None => None,
            },
            len == s@.len(),
        decreases s@.len() - p,
    {
        if p >= s.len() {
            return Err(DecodeError::UnexpectedEnd);
        }
        if s[p] == 101 {
            return Ok((Value::List(items), p + 1));
        }
        match decode_at(s, p, depth - 1) {
            Err(e) => return Err(e),
            Ok((v, e)) => {
                proof {
                    lemma_terms_push(items@, v);
                }
                items.push(v);
                p = e;
            },
        }
    }
}

fn decode_dict(s: &[u8], pos: usize, depth: usize) -> (r: Result<(Value, usize), DecodeError>)
    requires
        pos < s@.len(),
        s@[pos as int] == 100,
        depth > 0,
    ensures
        match parse_at(s@, pos as int, depth as nat) {
            Some((t, e)) => r matches Ok((v, e2)) && v@ == t && e2 as int == e,
            None => r is Err,
        },
        r matches Ok((_, e)) ==> pos < e <= s@.len(),
    decreases s@.len() - pos, 0int,
{
    let ghost goal = parse_entries(s@, pos + 1, (depth - 1) as nat, Seq::empty());
    assert(parse_at(s@, pos as int, depth as nat) == match goal {
        Some((entries, e)) => Some((Term::Dict(entries), e)),
        None => None,
    });
    let len = s.len();
    let mut entries: Vec<(Vec<u8>, Value)> = Vec::new();
    let mut p: usize = pos + 1;
    assert(entries_of(entries@) =~= Seq::<(Seq<u8>, Term)>::empty());
    loop
        invariant
            pos < p <= s@.len(),
            depth > 0,
            parse_entries(s@, p as int, (depth - 1) as nat, entries_of(entries@)) == goal,
            parse_at(s@, pos as int, depth as nat) == match goal {
                Some((entries, e)) => Some((Term::Dict(entries), e)),
                None => None,
            },
            len == s@.len(),
        decreases s@.len() - p,
    {
        if p >= s.len() {
            return Err(DecodeError::UnexpectedEnd);
        }
        if s[p] == 101 {
            return Ok((Value::Dictionary(entries), p + 1));
        }
        let (key, ke) = match decode_at(s, p, depth - 1) {
            Err(e) => return Err(e),
            Ok((Value::ByteString(k), ke)) => (k, ke),
            Ok(_) => return Err(DecodeError::NonStringKey { at: p }),
        };
        match decode_at(s, ke, depth - 1) {
            Err(e) => return Err(e),
            Ok((v, ve)) => {
                let ghost old_entries = entries@;
                dict_insert(&mut entries, key, v);
                proof {
                    lemma_entries_put(old_entries, entries@, key@, v);
                }
                p = ve;
            },
        }
    }
}

/// Decodes the term at the start of `input`, returning it with the bytes that
/// follow it.
pub fn decode(input: &[u8]) -> (r: Result<(Value, &[u8]), DecodeError>)
    ensures
        match decoded_term(input@) {
            Some((t, e)) => r matches Ok((v, rest)) && v@ == t && rest@ == input@.subrange(e, input@.len() as int),
            None => r is Err,
        },
{
    match decode_at(input, 0, MAX_DEPTH) {
        Ok((v, e)) => Ok((v, slice_subrange(input, e, input.len()))),
        Err(e) => Err(e),
    }
}

} // verus!
