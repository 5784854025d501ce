use vstd::prelude::*;
use crate::decode::{decoded_term, parse_at, parse_bytes, parse_entries, parse_items};
use crate::digits::{
    digit_end, int_text, is_digit, lemma_canonical_text, lemma_digit_end_bounds,
    lemma_digit_end_text, lemma_nat_text, nat_text,
};
use crate::encode::{bytes_text, encoding};
use crate::value::Term;

verus! {

/// An integer literal that decodes is exactly the canonical encoding of the
/// integer it decodes to.
pub proof fn lemma_integer_round_trip(s: Seq<u8>)
    requires
        decoded_term(s) matches Some((Term::Int(_), _)),
    ensures
        decoded_term(s) matches Some((t, e)) && encoding(t) == s.subrange(0, e),
{
    let (t, e) = decoded_term(s).unwrap();
    assert(s[0] == 105);
    let n = t->Int_0;
    let neg = 1 < s.len() && s[1] == 45;
    let start: int = if neg { 2 } else { 1 };
    lemma_digit_end_bounds(s, start);
    let end = digit_end(s, start);
    let d = s.subrange(start, end);
    assert forall|j: int| 0 <= j < d.len() implies is_digit(#[trigger] d[j]) by {
        assert(d[j] == s[start + j]);
    }
    lemma_canonical_text(d);
    if neg {
        assert(int_text(n) == seq![45u8] + d);
        assert(encoding(t) =~= s.subrange(0, e));
    } else {
        assert(int_text(n) == d);
        assert(encoding(t) =~= s.subrange(0, e));
    }
}

/// A byte string framed by its length decodes to itself and takes the whole
/// input, whatever its bytes.
pub proof fn lemma_byte_string_decodes(b: Seq<u8>)
    ensures
        decoded_term(bytes_text(b)) == Some((Term::Bytes(b), bytes_text(b).len() as int)),
{
    let t = nat_text(b.len());
    let s = bytes_text(b);
    lemma_nat_text(b.len());
    let rest = seq![58u8] + b;
    assert(s =~= t + rest);
    lemma_digit_end_text(t, rest, 0);
    assert(s[0] == t[0]);
    assert(s.subrange(0, t.len() as int) =~= t);
    assert(s[t.len() as int] == 58);
    assert(s.subrange(t.len() + 1int, t.len() + 1int + b.len()) =~= b);
    assert(parse_bytes(s, 0) == Some((Term::Bytes(b), s.len() as int)));
}

/// A list's items come out in the order in which they stand in the input: the
/// first one left is the term at the current offset, and the rest follow it.
pub proof fn lemma_items_in_order(s: Seq<u8>, pos: int, depth: nat, acc: Seq<Term>)
    requires
        0 <= pos < s.len(),
        s[pos] != 101,
        parse_items(s, pos, depth, acc) is Some,
    ensures
        parse_at(s, pos, depth) matches Some((t, e)) && parse_items(s, e, depth, acc.push(t))
            == parse_items(s, pos, depth, acc),
        parse_items(s, pos, depth, acc) matches Some((items, _)) && items.len() > acc.len()
            && items.subrange(0, acc.len() as int) == acc,
    decreases s.len() - pos,
{
    let (t, e) = parse_at(s, pos, depth).unwrap();
    if e < s.len() && s[e] != 101 {
        lemma_items_in_order(s, e, depth, acc.push(t));
        let items = parse_items(s, pos, depth, acc).unwrap().0;
        assert(items.subrange(0, acc.len() + 1int) == acc.push(t));
        assert(items.subrange(0, acc.len() as int) =~= acc.push(t).subrange(0, acc.len() as int));
    } else {
        assert(parse_items(s, e, depth, acc.push(t)) == Some((acc.push(t), e + 1)));
        assert(acc.push(t).subrange(0, acc.len() as int) =~= acc);
    }
}

/// A dictionary entry whose key is not a byte string ends decoding with an
/// error, whatever follows it.
pub proof fn lemma_non_string_key_rejected(
    s: Seq<u8>,
    pos: int,
    depth: nat,
    acc: Seq<(Seq<u8>, Term)>,
)
    requires
        0 <= pos < s.len(),
        s[pos] != 101,
        parse_at(s, pos, depth) matches Some((k, _)) && !(k is Bytes),
    ensures
        parse_entries(s, pos, depth, acc) is None,
{
}

} // verus!
