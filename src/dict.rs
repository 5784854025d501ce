use vstd::prelude::*;

verus! {

/// Byte strings ordered by raw byte value, a proper prefix first.
pub open spec fn bytes_lt(a: Seq<u8>, b: Seq<u8>) -> bool
    decreases a.len(),
{
    if a.len() == 0 {
        b.len() > 0
    } else if b.len() == 0 {
        false
    } else if a[0] != b[0] {
        a[0] < b[0]
    } else {
        bytes_lt(a.drop_first(), b.drop_first())
    }
}

/// Keys strictly ascending, hence unique.
pub open spec fn keys_sorted<V>(d: Seq<(Seq<u8>, V)>) -> bool {
    forall|i: int, j: int| 0 <= i < j < d.len() ==> bytes_lt(#[trigger] d[i].0, #[trigger] d[j].0)
}

/// Puts an entry into a key-ordered dictionary: an entry with an equal key is
/// replaced, else the new one goes before the first greater key.
pub open spec fn dict_put<V>(d: Seq<(Seq<u8>, V)>, k: Seq<u8>, v: V) -> Seq<(Seq<u8>, V)>
    decreases d.len(),
{
    if d.len() == 0 {
        seq![(k, v)]
    } else if bytes_lt(d[0].0, k) {
        seq![d[0]] + dict_put(d.drop_first(), k, v)
    } else if d[0].0 == k {
        seq![(k, v)] + d.drop_first()
    } else {
        seq![(k, v)] + d
    }
}

/// Entries put one after another into an empty dictionary.
pub open spec fn dict_from<V>(entries: Seq<(Seq<u8>, V)>) -> Seq<(Seq<u8>, V)>
    decreases entries.len(),
{
    if entries.len() == 0 {
        Seq::empty()
    } else {
        let last = entries.last();
        dict_put(dict_from(entries.drop_last()), last.0, last.1)
    }
}

pub open spec fn key_views<V>(d: Seq<(Vec<u8>, V)>) -> Seq<(Seq<u8>, V)> {
    d.map_values(|p: (Vec<u8>, V)| (p.0@, p.1))
}

proof fn lemma_bytes_lt_suffix(a: Seq<u8>, b: Seq<u8>, i: int)
    requires
        0 <= i <= a.len(),
        i <= b.len(),
        a.subrange(0, i) == b.subrange(0, i),
    ensures
        bytes_lt(a, b) == bytes_lt(a.subrange(i, a.len() as int), b.subrange(i, b.len() as int)),
    decreases i,
{
    if i > 0 {
        assert(a[0] == a.subrange(0, i)[0]);
        assert(b[0] == b.subrange(0, i)[0]);
        assert(a.drop_first().subrange(0, i - 1) =~= b.drop_first().subrange(0, i - 1)) by {
            assert forall|m: int| 0 <= m < i - 1 implies a.drop_first()[m] == b.drop_first()[m] by {
                assert(a.subrange(0, i)[m + 1] == b.subrange(0, i)[m + 1]);
                assert(a.subrange(0, i)[m + 1] == a[m + 1]);
                assert(b.subrange(0, i)[m + 1] == b[m + 1]);
            }
        }
        lemma_bytes_lt_suffix(a.drop_first(), b.drop_first(), i - 1);
        assert(a.drop_first().subrange(i - 1, a.len() - 1) =~= a.subrange(i, a.len() as int));
        assert(b.drop_first().subrange(i - 1, b.len() - 1) =~= b.subrange(i, b.len() as int));
    } else {
        assert(a.subrange(0, a.len() as int) =~= a);
        assert(b.subrange(0, b.len() as int) =~= b);
    }
}

/// Compares two byte strings by raw byte value.
pub fn bytes_less(a: &Vec<u8>, b: &Vec<u8>) -> (r: bool)
    ensures
        r == bytes_lt(a@, b@),
{
    let mut i: usize = 0;
    while i < a.len() && i < b.len() && a[i] == b[i]
        invariant
            i <= a.len(),
            i <= b.len(),
            a@.subrange(0, i as int) == b@.subrange(0, i as int),
        decreases a.len() - i,
    {
        assert(a@.subrange(0, i + 1) =~= a@.subrange(0, i as int).push(a@[i as int]));
        assert(b@.subrange(0, i + 1) =~= b@.subrange(0, i as int).push(b@[i as int]));
        i = i + 1;
    }
    proof {
        lemma_bytes_lt_suffix(a@, b@, i as int);
        let sa = a@.subrange(i as int, a.len() as int);
        let sb = b@.subrange(i as int, b.len() as int);
        if sa.len() > 0 {
            assert(sa[0] == a@[i as int]);
        }
        if sb.len() > 0 {
            assert(sb[0] == b@[i as int]);
        }
    }
    if i == a.len() {
        i < b.len()
    } else if i == b.len() {
        false
    } else {
        a[i] < b[i]
    }
}

proof fn lemma_put_split<V>(d: Seq<(Seq<u8>, V)>, i: int, k: Seq<u8>, v: V)
    requires
        0 <= i <= d.len(),
        forall|j: int| 0 <= j < i ==> bytes_lt(#[trigger] d[j].0, k),
    ensures
        dict_put(d, k, v) == d.subrange(0, i) + dict_put(d.subrange(i, d.len() as int), k, v),
    decreases i,
{
    if i == 0 {
        assert(d.subrange(0, 0) + dict_put(d.subrange(0, d.len() as int), k, v) =~= dict_put(d, k, v)) by {
            assert(d.subrange(0, d.len() as int) =~= d);
        }
    } else {
        let t = d.drop_first();
        assert forall|j: int| 0 <= j < i - 1 implies bytes_lt(#[trigger] t[j].0, k) by {
            assert(t[j] == d[j + 1]);
        }
        lemma_put_split(t, i - 1, k, v);
        assert(t.subrange(i - 1, t.len() as int) =~= d.subrange(i, d.len() as int));
        assert(dict_put(d, k, v) =~= d.subrange(0, i) + dict_put(d.subrange(i, d.len() as int), k, v)) by {
            assert(seq![d[0]] + t.subrange(0, i - 1) =~= d.subrange(0, i));
        }
    }
}

/// Puts `(k, v)` into a dictionary held in key order, replacing an entry with an
/// equal key.
pub fn dict_insert<V>(d: &mut Vec<(Vec<u8>, V)>, k: Vec<u8>, v: V)
    ensures
        key_views(final(d)@) == dict_put(key_views(old(d)@), k@, v),
{
    let ghost kd = key_views(d@);
    let mut i: usize = 0;
    while i < d.len() && bytes_less(&d[i].0, &k)
        invariant
            i <= d.len(),
            kd == key_views(d@),
            forall|j: int| 0 <= j < i ==> bytes_lt(#[trigger] kd[j].0, k@),
        decreases d.len() - i,
    {
        i = i + 1;
    }
    proof {
        lemma_put_split(kd, i as int, k@, v);
    }
    let ghost tail = kd.subrange(i as int, kd.len() as int);
    if i == d.len() {
        d.push((k, v));
        assert(key_views(d@) =~= kd.subrange(0, i as int) + dict_put(tail, k@, v));
    } else if vec_eq(&d[i].0, &k) {
        assert(tail[0] == kd[i as int]);
        d.set(i, (k, v));
        assert(key_views(d@) =~= kd.subrange(0, i as int) + dict_put(tail, k@, v)) by {
            assert(tail.drop_first() =~= kd.subrange(i + 1, kd.len() as int));
        }
    } else {
        assert(tail[0] == kd[i as int]);
        d.insert(i, (k, v));
        assert(key_views(d@) =~= kd.subrange(0, i as int) + dict_put(tail, k@, v));
    }
}

/// Byte-for-byte equality of two byte strings.
pub fn vec_eq(a: &Vec<u8>, b: &Vec<u8>) -> (r: bool)
    ensures
        r == (a@ == b@),
{
    if a.len() != b.len() {
        return false;
    }
    let mut i: usize = 0;
    while i < a.len()
        invariant
            a.len() == b.len(),
            i <= a.len(),
            forall|j: int| 0 <= j < i ==> a@[j] == b@[j],
        decreases a.len() - i,
    {
        if a[i] != b[i] {
            return false;
        }
        i = i + 1;
    }
    assert(a@ =~= b@);
    true
}

} // verus!
