use vstd::prelude::*;
use crate::dict::{bytes_lt, dict_from, dict_insert, dict_put, key_views};
use crate::digits::{int_text, nat_text};
use crate::value::{entries_of, entry_terms, lemma_entries_of_views, term_of, terms_of, Term, Value};

verus! {

broadcast use {vstd::std_specs::vec::group_vec_axioms, vstd::seq::group_seq_axioms};

/// The canonical bencode of a term: dictionary entries ordered by key, a
/// repeated key keeping its last value.
pub open spec fn encoding(t: Term) -> Seq<u8>
    decreases t,
{
    match t {
        Term::Int(n) => seq![105u8] + int_text(n) + seq![101u8],
        Term::Bytes(b) => bytes_text(b),
        Term::List(items) => seq![108u8] + items_text(items) + seq![101u8],
        Term::Dict(d) => seq![100u8] + pairs_text(dict_from(encoded_entries(d))) + seq![101u8],
    }
}

/// A byte string framed by its decimal length and a colon.
pub open spec fn bytes_text(b: Seq<u8>) -> Seq<u8> {
    nat_text(b.len()) + seq![58u8] + b
}

pub open spec fn items_text(items: Seq<Term>) -> Seq<u8>
    decreases items,
{
    if items.len() == 0 {
        Seq::empty()
    } else {
        items_text(items.drop_last()) + encoding(items.last())
    }
}

/// Each entry's key with the encoding of its value.
pub open spec fn encoded_entries(d: Seq<(Seq<u8>, Term)>) -> Seq<(Seq<u8>, Seq<u8>)>
    decreases d,
{
    if d.len() == 0 {
        Seq::empty()
    } else {
        encoded_entries(d.drop_last()).push((d.last().0, encoding(d.last().1)))
    }
}

/// Key and encoded value of each entry, in order.
pub open spec fn pairs_text(p: Seq<(Seq<u8>, Seq<u8>)>) -> Seq<u8>
    decreases p.len(),
{
    if p.len() == 0 {
        Seq::empty()
    } else {
        pairs_text(p.drop_last()) + bytes_text(p.last().0) + p.last().1
    }
}

pub open spec fn byte_views(d: Seq<(Seq<u8>, Vec<u8>)>) -> Seq<(Seq<u8>, Seq<u8>)> {
    d.map_values(|p: (Seq<u8>, Vec<u8>)| (p.0, p.1@))
}

proof fn lemma_byte_views_put(d: Seq<(Seq<u8>, Vec<u8>)>, k: Seq<u8>, v: Vec<u8>)
    ensures
        byte_views(dict_put(d, k, v)) == dict_put(byte_views(d), k, v@),
    decreases d.len(),
{
    let m = byte_views(d);
    if d.len() == 0 {
        assert(byte_views(dict_put(d, k, v)) =~= dict_put(m, k, v@));
    } else {
        assert(m[0].0 == d[0].0);
        assert(byte_views(d.drop_first()) =~= m.drop_first());
        if bytes_lt(d[0].0, k) {
            lemma_byte_views_put(d.drop_first(), k, v);
        }
        assert(byte_views(dict_put(d, k, v)) =~= dict_put(m, k, v@));
    }
}

/// Appends the decimal digits of `n`.
fn push_nat(out: &mut Vec<u8>, n: u64)
    ensures
        final(out)@ == old(out)@ + nat_text(n as nat),
    decreases n,
{
    if n < 10 {
        out.push((n + 48) as u8);
        assert(final(out)@ =~= old(out)@ + nat_text(n as nat));
    } else {
        push_nat(out, n / 10);
        out.push((n % 10 + 48) as u8);
        assert(final(out)@ =~= old(out)@ + nat_text(n as nat));
    }
}

fn push_all(out: &mut Vec<u8>, b: &Vec<u8>)
    ensures
        final(out)@ == old(out)@ + b@,
{
    let mut i: usize = 0;
    while i < b.len()
        invariant
            i <= b@.len(),
            out@ == old(out)@ + b@.subrange(0, i as int),
        decreases b.len() - i,
    {
        out.push(b[i]);
        assert(b@.subrange(0, i + 1) =~= b@.subrange(0, i as int).push(b@[i as int]));
        i = i + 1;
    }
    assert(b@.subrange(0, b@.len() as int) =~= b@);
}

fn push_byte_string(out: &mut Vec<u8>, b: &Vec<u8>)
    ensures
        final(out)@ == old(out)@ + bytes_text(b@),
{
    push_nat(out, b.len() as u64);
    out.push(58);
    push_all(out, b);
    assert(final(out)@ =~= old(out)@ + bytes_text(b@));
}

/// Appends the canonical encoding of `v`.
pub fn encode_into(v: &Value, out: &mut Vec<u8>)
    ensures
        final(out)@ == old(out)@ + encoding(v@),
    decreases v,
{
    match v {
        Value::Integer(n) => {
            out.push(105);
            if *n < 0 {
                out.push(45);
                push_nat(out, (-(*n as i128)) as u64);
            } else {
                push_nat(out, *n as u64);
            }
            out.push(101);
            assert(final(out)@ =~= old(out)@ + encoding(v@));
        },
        Value::ByteString(b) => {
            push_byte_string(out, b);
        },
        Value::List(items) => {
            out.push(108);
            let ghost start = out@;
            let mut i: usize = 0;
            while i < items.len()
                invariant
                    i <= items@.len(),
                    out@ == start + items_text(terms_of(items@.subrange(0, i as int))),
                    v == Value::List(*items),
                decreases items.len() - i,
            {
                proof {
                    assert(items@.subrange(0, i + 1).drop_last() =~= items@.subrange(0, i as int));
                    assert(items@.subrange(0, i + 1).last() == items@[i as int]);
                    let ts = terms_of(items@.subrange(0, i + 1));
                    assert(ts == terms_of(items@.subrange(0, i as int)).push(term_of(items@[i as int])));
                    assert(ts.drop_last() =~= terms_of(items@.subrange(0, i as int)));
                    vstd::std_specs::vec::axiom_vec_index_decreases(*items, i as int);
                    assert(decreases_to!(*v => (*v)->List_0));
                    assert(decreases_to!(*v => items[i as int]));
                }
                encode_into(&items[i], out);
                proof {
                    let ts = terms_of(items@.subrange(0, i + 1));
                    assert(ts.last() == term_of(items@[i as int]));
                }
                i = i + 1;
            }
            assert(items@.subrange(0, items@.len() as int) =~= items@);
            out.push(101);
            assert(final(out)@ =~= old(out)@ + encoding(v@));
        },
        Value::Dictionary(d) => {
            proof {
                lemma_entries_of_views(d@);
            }
            let ghost ent = entries_of(d@);
            let mut sorted: Vec<(Vec<u8>, Vec<u8>)> = Vec::new();
            let mut i: usize = 0;
            assert(byte_views(key_views(sorted@)) =~= Seq::<(Seq<u8>, Seq<u8>)>::empty());
            assert(ent.subrange(0, 0) =~= Seq::<(Seq<u8>, Term)>::empty());
            while i < d.len()
                invariant
                    i <= d@.len(),
                    ent == entries_of(d@),
                    ent == entry_terms(key_views(d@)),
                    byte_views(key_views(sorted@)) == dict_from(encoded_entries(ent.subrange(0, i as int))),
                    v == Value::Dictionary(*d),
                decreases d.len() - i,
            {
                let mut enc: Vec<u8> = Vec::new();
                proof {
                    vstd::std_specs::vec::axiom_vec_index_decreases(*d, i as int);
                    assert(decreases_to!(*v => (*v)->Dictionary_0));
                    assert(decreases_to!(d[i as int] => d[i as int].1));
                    assert(decreases_to!(*v => d[i as int].1));
                }
                encode_into(&d[i].1, &mut enc);
                let key = d[i].0.clone();
                let ghost before = key_views(sorted@);
                dict_insert(&mut sorted, key, enc);
                proof {
                    lemma_byte_views_put(before, key@, enc);
                    let e = ent.subrange(0, i + 1);
                    assert(e.drop_last() =~= ent.subrange(0, i as int));
                    assert(e.last() == ent[i as int]);
                    assert(ent[i as int] == (d@[i as int].0@, term_of(d@[i as int].1)));
                    let ee = encoded_entries(e);
                    assert(ee == encoded_entries(e.drop_last()).push((e.last().0, encoding(e.last().1))));
                    assert(ee.drop_last() =~= encoded_entries(ent.subrange(0, i as int)));
                    assert(ee.last() == (key@, enc@));
                }
                i = i + 1;
            }
            assert(ent.subrange(0, d@.len() as int) =~= ent);
            let ghost pairs = byte_views(key_views(sorted@));
            out.push(100);
            let ghost start = out@;
            let mut j: usize = 0;
            while j < sorted.len()
                invariant
                    j <= sorted@.len(),
                    pairs == byte_views(key_views(sorted@)),
                    out@ == start + pairs_text(pairs.subrange(0, j as int)),
                decreases sorted.len() - j,
            {
                push_byte_string(out, &sorted[j].0);
                push_all(out, &sorted[j].1);
                proof {
                    let p = pairs.subrange(0, j + 1);
                    assert(p.drop_last() =~= pairs.subrange(0, j as int));
                    assert(p.last() == pairs[j as int]);
                }
                j = j + 1;
            }
            assert(pairs.subrange(0, sorted@.len() as int) =~= pairs);
            out.push(101);
            assert(final(out)@ =~= old(out)@ + encoding(v@));
        },
    }
}

/// The canonical encoding of `v`.
pub fn encode(v: &Value) -> (r: Vec<u8>)
    ensures
        r@ == encoding(v@),
{
    let mut out: Vec<u8> = Vec::new();
    encode_into(v, &mut out);
    assert(out@ =~= encoding(v@));
    out
}

} // verus!
