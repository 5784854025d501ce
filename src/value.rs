use vstd::prelude::*;
use crate::dict::{bytes_lt, dict_put, key_views};

verus! {

broadcast use {vstd::std_specs::vec::group_vec_axioms, vstd::seq::group_seq_axioms};

/// A decoded bencode term.
#[derive(Debug, PartialEq, Eq)]
pub enum Value {
    Integer(i64),
    ByteString(Vec<u8>),
    List(Vec<Value>),
    Dictionary(Vec<(Vec<u8>, Value)>),
}

/// The mathematical model of a bencode term.
pub enum Term {
    Int(int),
    Bytes(Seq<u8>),
    List(Seq<Term>),
    Dict(Seq<(Seq<u8>, Term)>),
}

pub open spec fn term_of(v: Value) -> Term
    decreases v,
{
    match v {
        Value::Integer(n) => Term::Int(n as int),
        Value::ByteString(b) => Term::Bytes(b@),
        Value::List(l) => Term::List(terms_of(l@)),
        Value::Dictionary(d) => Term::Dict(entries_of(d@)),
    }
}

pub open spec fn terms_of(s: Seq<Value>) -> Seq<Term>
    decreases s,
{
    if s.len() == 0 {
        Seq::empty()
    } else {
        terms_of(s.drop_last()).push(term_of(s.last()))
    }
}

pub open spec fn entries_of(s: Seq<(Vec<u8>, Value)>) -> Seq<(Seq<u8>, Term)>
    decreases s,
{
    if s.len() == 0 {
        Seq::empty()
    } else {
        entries_of(s.drop_last()).push((s.last().0@, term_of(s.last().1)))
    }
}

impl View for Value {
    type V = Term;

    open spec fn view(&self) -> Term {
        term_of(*self)
    }
}

} // verus!

verus! {

pub proof fn lemma_terms_push(s: Seq<Value>, v: Value)
    ensures
        terms_of(s.push(v)) == terms_of(s).push(term_of(v)),
{
    assert(s.push(v).drop_last() =~= s);
}

/// The model of each entry: its key's bytes and its value's term.
pub open spec fn entry_terms(d: Seq<(Seq<u8>, Value)>) -> Seq<(Seq<u8>, Term)> {
    d.map_values(|p: (Seq<u8>, Value)| (p.0, term_of(p.1)))
}

pub proof fn lemma_entries_of_views(s: Seq<(Vec<u8>, Value)>)
    ensures
        entries_of(s) == entry_terms(key_views(s)),
    decreases s.len(),
{
    if s.len() > 0 {
        lemma_entries_of_views(s.drop_last());
        assert(key_views(s.drop_last()) =~= key_views(s).drop_last());
        assert(entries_of(s) =~= entry_terms(key_views(s)));
    } else {
        assert(entries_of(s) =~= entry_terms(key_views(s)));
    }
}

proof fn lemma_entry_terms_put(d: Seq<(Seq<u8>, Value)>, k: Seq<u8>, v: Value)
    ensures
        entry_terms(dict_put(d, k, v)) == dict_put(entry_terms(d), k, term_of(v)),
    decreases d.len(),
{
    let m = entry_terms(d);
    if d.len() == 0 {
        assert(entry_terms(dict_put(d, k, v)) =~= dict_put(m, k, term_of(v)));
    } else {
        assert(m[0].0 == d[0].0);
        assert(entry_terms(d.drop_first()) =~= m.drop_first());
        if bytes_lt(d[0].0, k) {
            lemma_entry_terms_put(d.drop_first(), k, v);
        }
        assert(entry_terms(dict_put(d, k, v)) =~= dict_put(m, k, term_of(v)));
    }
}

/// How a dictionary's model follows an insertion into its entries.
pub proof fn lemma_entries_put(
    old_entries: Seq<(Vec<u8>, Value)>,
    new_entries: Seq<(Vec<u8>, Value)>,
    k: Seq<u8>,
    v: Value,
)
    requires
        key_views(new_entries) == dict_put(key_views(old_entries), k, v),
    ensures
        entries_of(new_entries) == dict_put(entries_of(old_entries), k, term_of(v)),
{
    lemma_entries_of_views(old_entries);
    lemma_entries_of_views(new_entries);
    lemma_entry_terms_put(key_views(old_entries), k, v);
}

} // verus!
