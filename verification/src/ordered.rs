//! Ordered collections of the wire format: a map whose pairs travel sorted
//! by key, and a set whose elements must arrive strictly increasing.
//!
//! Both need their element type to carry a strict total order, stated on
//! abstract values and answered by an executable three-way comparison.

use vstd::prelude::*;

use crate::DecodeError;
use crate::intbytes::lemma_u32_be_round_trip;
use crate::intbytes::lemma_u32_le_round_trip;
use crate::intbytes::spec_u32_from_le_bytes;
use crate::intbytes::spec_u32_to_le_bytes;
use crate::intbytes::spec_u32_from_be_bytes;
use crate::intbytes::spec_u32_to_be_bytes;
use crate::serialization::Cursor;
use crate::serialization::ReadInt;
use crate::serialization::ReadWrite;
use crate::serialization::WriteInt;
use crate::serialization::lemma_enc_elems_snoc;
use crate::serialization::seq_deep_view;
use crate::serialization::spec_enc_elems;

verus! {

/// Outcome of a three-way comparison.
#[derive(Clone, Copy, Debug, PartialEq, Eq, Structural)]
pub enum KeyCmp {
    Less,
    Equal,
    Greater,
}

/// A strict total order on a type's abstract values, with an executable
/// comparison that answers it exactly.
pub trait OrderedKey: DeepView + Sized {
    /// `a` comes strictly before `b`.
    spec fn key_lt(a: Self::V, b: Self::V) -> bool;

    /// The order is asymmetric, transitive and connected: two distinct
    /// abstract values always compare one way or the other.
    proof fn lemma_key_order(a: Self::V, b: Self::V, c: Self::V)
        ensures
            !(Self::key_lt(a, b) && Self::key_lt(b, a)),
            Self::key_lt(a, b) && Self::key_lt(b, c) ==> Self::key_lt(a, c),
            a != b ==> Self::key_lt(a, b) || Self::key_lt(b, a),
    ;

    fn key_compare(&self, other: &Self) -> (r: KeyCmp)
        ensures
            match r {
                KeyCmp::Less => Self::key_lt(self.deep_view(), other.deep_view()),
                KeyCmp::Equal => self.deep_view() == other.deep_view(),
                KeyCmp::Greater => Self::key_lt(other.deep_view(), self.deep_view()),
            },
    ;
}

impl OrderedKey for u64 {
    open spec fn key_lt(a: u64, b: u64) -> bool {
        a < b
    }

    proof fn lemma_key_order(a: u64, b: u64, c: u64) {
    }

    fn key_compare(&self, other: &Self) -> (r: KeyCmp) {
        if *self < *other {
            KeyCmp::Less
        } else if *self > *other {
            KeyCmp::Greater
        } else {
            KeyCmp::Equal
        }
    }
}

/// The keys of a pair sequence are strictly increasing.
pub open spec fn spec_entries_sorted<K: OrderedKey, T>(m: Seq<(K::V, T)>) -> bool {
    forall|i: int, j: int|
        #![trigger m[i], m[j]]
        0 <= i < j < m.len() ==> K::key_lt(m[i].0, m[j].0)
}

/// The value stored under a key, if any.
pub open spec fn spec_map_get<K: OrderedKey, T>(m: Seq<(K::V, T)>, k: K::V) -> Option<T>
    decreases m.len(),
{
    if m.len() == 0 {
        Option::None
    } else if m[0].0 == k {
        Option::Some(m[0].1)
    } else {
        spec_map_get::<K, T>(m.drop_first(), k)
    }
}

/// The pair sequence after binding `k` to `v`: an existing binding is
/// replaced in place, a new one enters at its ordered position.
pub open spec fn spec_map_put<K: OrderedKey, T>(m: Seq<(K::V, T)>, k: K::V, v: T) -> Seq<
    (K::V, T),
>
    decreases m.len(),
{
    if m.len() == 0 {
        seq![(k, v)]
    } else if K::key_lt(k, m[0].0) {
        seq![(k, v)] + m
    } else if K::key_lt(m[0].0, k) {
        seq![m[0]] + spec_map_put::<K, T>(m.drop_first(), k, v)
    } else {
        seq![(k, v)] + m.drop_first()
    }
}

/// Putting preserves sortedness, and every resulting pair is either the new
/// binding or one carried over.
pub proof fn lemma_put_sorted<K: OrderedKey, T>(m: Seq<(K::V, T)>, k: K::V, v: T)
    requires
        spec_entries_sorted::<K, T>(m),
    ensures
        spec_entries_sorted::<K, T>(spec_map_put::<K, T>(m, k, v)),
        m.len() <= spec_map_put::<K, T>(m, k, v).len() <= m.len() + 1,
        forall|j: int|
            0 <= j < spec_map_put::<K, T>(m, k, v).len() ==> (#[trigger] spec_map_put::<K, T>(
                m,
                k,
                v,
            )[j] == (k, v) || m.contains(spec_map_put::<K, T>(m, k, v)[j])),
    decreases m.len(),
{
    let put = spec_map_put::<K, T>(m, k, v);
    if m.len() == 0 {
        assert(put =~= seq![(k, v)]);
    } else if K::key_lt(k, m[0].0) {
        assert forall|i: int, j: int| 0 <= i < j < put.len() implies K::key_lt(
            #[trigger] put[i].0,
            #[trigger] put[j].0,
        ) by {
            if i == 0 && j > 1 {
                K::lemma_key_order(k, m[0].0, m[j - 1].0);
            }
        }
        assert forall|j: int| 0 <= j < put.len() implies (#[trigger] put[j] == (k, v)
            || m.contains(put[j])) by {
            if j > 0 {
                assert(put[j] == m[j - 1]);
            }
        }
    } else if K::key_lt(m[0].0, k) {
        let rest = m.drop_first();
        assert(spec_entries_sorted::<K, T>(rest)) by {
            assert forall|i: int, j: int| 0 <= i < j < rest.len() implies K::key_lt(
                #[trigger] rest[i].0,
                #[trigger] rest[j].0,
            ) by {
                assert(rest[i] == m[i + 1]);
                assert(rest[j] == m[j + 1]);
            }
        }
        lemma_put_sorted::<K, T>(rest, k, v);
        let putr = spec_map_put::<K, T>(rest, k, v);
        assert(put == seq![m[0]] + putr);
        assert forall|i: int, j: int| 0 <= i < j < put.len() implies K::key_lt(
            #[trigger] put[i].0,
            #[trigger] put[j].0,
        ) by {
            if i == 0 {
                assert(put[j] == putr[j - 1]);
                if putr[j - 1] == (k, v) {
                } else {
                    assert(rest.contains(putr[j - 1]));
                    let w = choose|w: int| 0 <= w < rest.len() && rest[w] == putr[j - 1];
                    assert(rest[w] == m[w + 1]);
                }
            } else {
                assert(put[i] == putr[i - 1]);
                assert(put[j] == putr[j - 1]);
            }
        }
        assert forall|j: int| 0 <= j < put.len() implies (#[trigger] put[j] == (k, v)
            || m.contains(put[j])) by {
            if j == 0 {
                assert(m[0] == put[0]);
                assert(m.contains(put[0]));
            } else {
                assert(put[j] == putr[j - 1]);
                if putr[j - 1] == (k, v) {
                } else {
                    assert(rest.contains(putr[j - 1]));
                    let w = choose|w: int| 0 <= w < rest.len() && rest[w] == putr[j - 1];
                    assert(rest[w] == m[w + 1]);
                    assert(m.contains(put[j]));
                }
            }
        }
    } else {
        K::lemma_key_order(k, m[0].0, m[0].0);
        assert(k == m[0].0);
        let rest = m.drop_first();
        assert(put == seq![(k, v)] + rest);
        assert forall|i: int, j: int| 0 <= i < j < put.len() implies K::key_lt(
            #[trigger] put[i].0,
            #[trigger] put[j].0,
        ) by {
            if i == 0 {
                assert(put[j] == rest[j - 1]);
                assert(rest[j - 1] == m[j]);
            } else {
                assert(put[i] == m[i]);
                assert(put[j] == m[j]);
            }
        }
        assert forall|j: int| 0 <= j < put.len() implies (#[trigger] put[j] == (k, v)
            || m.contains(put[j])) by {
            if j > 0 {
                assert(put[j] == m[j]);
            }
        }
    }
}

/// A key strictly above every stored key is absent, and putting it appends.
pub proof fn lemma_put_above_all<K: OrderedKey, T>(m: Seq<(K::V, T)>, k: K::V, v: T)
    requires
        forall|j: int| 0 <= j < m.len() ==> K::key_lt(#[trigger] m[j].0, k),
    ensures
        spec_map_get::<K, T>(m, k) == Option::<T>::None,
        spec_map_put::<K, T>(m, k, v) == m.push((k, v)),
    decreases m.len(),
{
    if m.len() == 0 {
        assert(spec_map_put::<K, T>(m, k, v) =~= m.push((k, v)));
    } else {
        K::lemma_key_order(m[0].0, k, k);
        assert(m[0].0 != k);
        assert(!K::key_lt(k, m[0].0));
        let rest = m.drop_first();
        assert(forall|j: int| 0 <= j < rest.len() ==> K::key_lt(#[trigger] rest[j].0, k)) by {
            assert(forall|j: int| 0 <= j < rest.len() ==> rest[j] == m[j + 1]);
        }
        lemma_put_above_all::<K, T>(rest, k, v);
        assert(seq![m[0]] + rest.push((k, v)) =~= m.push((k, v)));
    }
}

/// A key strictly below every stored key of a sorted sequence is absent.
pub proof fn lemma_get_below_all<K: OrderedKey, T>(m: Seq<(K::V, T)>, k: K::V)
    requires
        spec_entries_sorted::<K, T>(m),
        m.len() > 0 ==> K::key_lt(k, m[0].0),
    ensures
        spec_map_get::<K, T>(m, k) == Option::<T>::None,
    decreases m.len(),
{
    if m.len() > 0 {
        K::lemma_key_order(k, m[0].0, m[0].0);
        assert(m[0].0 != k);
        let rest = m.drop_first();
        assert(spec_entries_sorted::<K, T>(rest)) by {
            assert(forall|i: int, j: int|
                #![trigger rest[i], rest[j]]
                0 <= i < j < rest.len() ==> rest[i] == m[i + 1] && rest[j] == m[j + 1]);
        }
        if rest.len() > 0 {
            assert(rest[0] == m[1]);
            K::lemma_key_order(k, m[0].0, m[1].0);
        }
        lemma_get_below_all::<K, T>(rest, k);
    }
}

/// Concatenated encodings of a pair sequence: each key, then its value.
pub open spec fn spec_enc_pairs<K: ReadWrite, U: ReadWrite>(m: Seq<(K::V, U::V)>) -> Seq<u8>
    decreases m.len(),
{
    if m.len() == 0 {
        Seq::empty()
    } else {
        K::spec_enc(m[0].0) + U::spec_enc(m[0].1) + spec_enc_pairs::<K, U>(m.drop_first())
    }
}

pub proof fn lemma_enc_pairs_snoc<K: ReadWrite, U: ReadWrite>(m: Seq<(K::V, U::V)>, p: (K::V, U::V))
    ensures
        spec_enc_pairs::<K, U>(m.push(p)) == spec_enc_pairs::<K, U>(m) + (K::spec_enc(p.0)
            + U::spec_enc(p.1)),
    decreases m.len(),
{
    if m.len() == 0 {
        assert(m =~= Seq::<(K::V, U::V)>::empty());
        assert(m.push(p)[0] == p);
        assert(m.push(p).drop_first() =~= Seq::<(K::V, U::V)>::empty());
        assert(spec_enc_pairs::<K, U>(Seq::<(K::V, U::V)>::empty()) == Seq::<u8>::empty());
        assert(spec_enc_pairs::<K, U>(m.push(p)) =~= spec_enc_pairs::<K, U>(m) + (K::spec_enc(p.0)
            + U::spec_enc(p.1)));
    } else {
        assert(m.push(p).drop_first() =~= m.drop_first().push(p));
        lemma_enc_pairs_snoc::<K, U>(m.drop_first(), p);
        assert(m.push(p)[0] == m[0]);
        assert((K::spec_enc(m[0].0) + U::spec_enc(m[0].1)) + (spec_enc_pairs::<K, U>(
            m.drop_first(),
        ) + (K::spec_enc(p.0) + U::spec_enc(p.1))) =~= ((K::spec_enc(m[0].0) + U::spec_enc(
            m[0].1,
        )) + spec_enc_pairs::<K, U>(m.drop_first())) + (K::spec_enc(p.0) + U::spec_enc(p.1)));
    }
}

/// Decoding of exactly `count` key/value pairs into an accumulated map.
/// A key already bound in the accumulator is a fatal duplicate.
pub open spec fn spec_dec_pairs<K: ReadWrite + OrderedKey, U: ReadWrite>(
    s: Seq<u8>,
    count: int,
    acc: Seq<(K::V, U::V)>,
) -> Result<(Seq<(K::V, U::V)>, int), DecodeError>
    decreases count,
{
    if count <= 0 {
        Ok((acc, 0))
    } else {
        match K::spec_dec(s) {
            Err(e) => Err(e),
            Ok((kk, nk)) => match U::spec_dec(s.skip(nk)) {
                Err(e) => Err(e),
                Ok((vv, nv)) => {
                    if spec_map_get::<K, U::V>(acc, kk) is Some {
                        Err(DecodeError::DuplicateMapKey)
                    } else {
                        match spec_dec_pairs::<K, U>(
                            s.skip(nk + nv),
                            count - 1,
                            spec_map_put::<K, U::V>(acc, kk, vv),
                        ) {
                            Err(e) => Err(e),
                            Ok((m, n)) => Ok((m, nk + nv + n)),
                        }
                    }
                },
            },
        }
    }
}

pub proof fn lemma_dec_pairs_bounds<K: ReadWrite + OrderedKey, U: ReadWrite>(
    s: Seq<u8>,
    count: int,
    acc: Seq<(K::V, U::V)>,
)
    ensures
        spec_dec_pairs::<K, U>(s, count, acc) matches Ok((m, n)) ==> 0 <= n <= s.len(),
    decreases count,
{
    if count > 0 {
        match K::spec_dec(s) {
            Err(_) => {},
            Ok((kk, nk)) => {
                K::lemma_dec_bounds(s);
                match U::spec_dec(s.skip(nk)) {
                    Err(_) => {},
                    Ok((vv, nv)) => {
                        U::lemma_dec_bounds(s.skip(nk));
                        lemma_dec_pairs_bounds::<K, U>(
                            s.skip(nk + nv),
                            count - 1,
                            spec_map_put::<K, U::V>(acc, kk, vv),
                        );
                        assert(s.skip(nk).skip(nv) =~= s.skip(nk + nv));
                    },
                }
            },
        }
    }
}

/// Decoding the sorted encoding of pairs whose keys all come after the
/// accumulator's keys extends the accumulator with exactly those pairs.
pub proof fn lemma_pairs_round_trip<K: ReadWrite + OrderedKey, U: ReadWrite>(
    pairs: Seq<(K, U)>,
    acc: Seq<(K::V, U::V)>,
    tail: Seq<u8>,
)
    requires
        forall|i: int|
            0 <= i < pairs.len() ==> (#[trigger] pairs[i].0.wf() && pairs[i].1.wf()),
        spec_entries_sorted::<K, U::V>(acc + seq_deep_view(pairs)),
    ensures
        spec_dec_pairs::<K, U>(
            spec_enc_pairs::<K, U>(seq_deep_view(pairs)) + tail,
            pairs.len() as int,
            acc,
        ) == Ok::<_, DecodeError>(
            (acc + seq_deep_view(pairs), spec_enc_pairs::<K, U>(seq_deep_view(pairs)).len() as int),
        ),
    decreases pairs.len(),
{
    let pdv = seq_deep_view(pairs);
    if pairs.len() == 0 {
        assert(pdv =~= Seq::<(K::V, U::V)>::empty());
        assert(spec_enc_pairs::<K, U>(pdv) + tail =~= tail);
        assert(acc + pdv =~= acc);
    } else {
        let k0 = pairs[0].0;
        let v0 = pairs[0].1;
        assert(pairs[0].0.wf());
        assert(pairs[0].1.wf());
        let rest = pairs.drop_first();
        let rdv = seq_deep_view(rest);
        assert(pdv.drop_first() =~= rdv);
        assert forall|q: int| 0 <= q < rest.len() implies (#[trigger] rest[q].0.wf()
            && rest[q].1.wf()) by {
            assert(rest[q] == pairs[q + 1]);
            assert(pairs[q + 1].0.wf());
        }
        assert(pdv[0] == (k0.deep_view(), v0.deep_view()));
        let ek = K::spec_enc(k0.deep_view());
        let ev = U::spec_enc(v0.deep_view());
        let erest = spec_enc_pairs::<K, U>(rdv);
        assert(spec_enc_pairs::<K, U>(pdv) == ek + ev + erest);
        K::lemma_round_trip(&k0, ev + (erest + tail));
        assert(((ek + ev) + erest) + tail =~= ek + (ev + (erest + tail)));
        K::lemma_dec_bounds(ek + (ev + (erest + tail)));
        assert((ek + (ev + (erest + tail))).skip(ek.len() as int) =~= ev + (erest + tail));
        U::lemma_round_trip(&v0, erest + tail);
        assert((ev + (erest + tail)).skip(ev.len() as int) =~= erest + tail);
        // the accumulator's keys all come before the new key
        assert(forall|j: int|
            0 <= j < acc.len() ==> K::key_lt(#[trigger] (acc + pdv)[j].0, (acc + pdv)[acc.len() as int].0));
        assert((acc + pdv)[acc.len() as int] == pdv[0]);
        assert(forall|j: int| 0 <= j < acc.len() ==> (acc + pdv)[j] == acc[j]);
        assert(forall|j: int| 0 <= j < acc.len() ==> K::key_lt(#[trigger] acc[j].0, k0.deep_view()));
        lemma_put_above_all::<K, U::V>(acc, k0.deep_view(), v0.deep_view());
        let acc2 = acc.push((k0.deep_view(), v0.deep_view()));
        assert(acc2 + rdv =~= acc + pdv);
        lemma_pairs_round_trip::<K, U>(rest, acc2, tail);
        assert((ek + (ev + (erest + tail))).skip(ek.len() as int + ev.len() as int) =~= erest
            + tail);
        assert(spec_dec_pairs::<K, U>(spec_enc_pairs::<K, U>(pdv) + tail, pairs.len() as int, acc)
            == Ok::<_, DecodeError>((acc + pdv, (ek.len() + ev.len() + erest.len()) as int)));
        assert((ek + ev + erest).len() == ek.len() + ev.len() + erest.len());
    }
}

/// A map whose pairs travel sorted by key: the in-memory entries are kept
/// strictly increasing, so encoding simply walks them in order.
#[derive(Debug)]
pub struct OrderedMap<K, U> {
    /// The key/value pairs, kept strictly increasing by key.
    pub entries: Vec<(K, U)>,
}

impl<K: DeepView, U: DeepView> DeepView for OrderedMap<K, U> {
    type V = Seq<(K::V, U::V)>;

    open spec fn deep_view(&self) -> Seq<(K::V, U::V)> {
        self.entries.deep_view()
    }
}

impl<K: ReadWrite + OrderedKey, U: ReadWrite> OrderedMap<K, U> {
    pub fn new() -> (r: OrderedMap<K, U>)
        ensures
            r.deep_view() == Seq::<(K::V, U::V)>::empty(),
            r.wf(),
    {
        let r = OrderedMap { entries: Vec::new() };
        proof {
            assert(r.deep_view() =~= Seq::<(K::V, U::V)>::empty());
        }
        r
    }

    pub fn len(&self) -> (r: usize)
        ensures
            r == self.deep_view().len(),
    {
        self.entries.len()
    }

    /// Look a key up.
    pub fn get(&self, key: &K) -> (r: Option<&U>)
        requires
            self.wf(),
        ensures
            match r {
                Option::Some(v) => spec_map_get::<K, U::V>(self.deep_view(), key.deep_view())
                    == Option::Some(v.deep_view()),
                Option::None => spec_map_get::<K, U::V>(self.deep_view(), key.deep_view())
                    is None,
            },
    {
        let ghost dv = self.deep_view();
        let ghost kdv = key.deep_view();
        proof {
            assert(dv.skip(0) =~= dv);
        }
        let mut i: usize = 0;
        while i < self.entries.len()
            invariant
                i <= dv.len(),
                dv == self.deep_view(),
                dv.len() == self.entries@.len(),
                kdv == key.deep_view(),
                spec_map_get::<K, U::V>(dv, kdv) == spec_map_get::<K, U::V>(dv.skip(i as int), kdv),
            decreases dv.len() - i,
        {
            let c = key.key_compare(&self.entries[i].0);
            proof {
                assert(dv.skip(i as int)[0] == dv[i as int]);
                assert(dv[i as int] == (self.entries@[i as int].0.deep_view(), self.entries@[i as int].1.deep_view()));
                assert(dv.skip(i as int).drop_first() =~= dv.skip(i + 1));
            }
            match c {
                KeyCmp::Equal => {
                    proof {
                        assert(spec_map_get::<K, U::V>(dv.skip(i as int), kdv) == Option::Some(
                            dv[i as int].1,
                        ));
                    }
                    return Some(&self.entries[i].1);
                },
                KeyCmp::Less => {
                    proof {
                        K::lemma_key_order(kdv, dv[i as int].0, dv[i as int].0);
                        assert(dv.skip(i as int)[0].0 != kdv);
                    }
                    i = i + 1;
                },
                KeyCmp::Greater => {
                    proof {
                        K::lemma_key_order(kdv, dv[i as int].0, dv[i as int].0);
                        assert(dv.skip(i as int)[0].0 != kdv);
                    }
                    i = i + 1;
                },
            }
        }
        proof {
            assert(dv.skip(dv.len() as int) =~= Seq::<(K::V, U::V)>::empty());
        }
        None
    }

    /// Bind a key to a value. An existing binding is replaced and its value
    /// returned; a new binding enters at its ordered position.
    pub fn insert(&mut self, key: K, value: U) -> (r: Option<U>)
        requires
            old(self).wf(),
            key.wf(),
            value.wf(),
            old(self).deep_view().len() < u32::MAX,
        ensures
            final(self).wf(),
            final(self).deep_view() == spec_map_put::<K, U::V>(
                old(self).deep_view(),
                key.deep_view(),
                value.deep_view(),
            ),
            match r {
                Option::Some(prev) => spec_map_get::<K, U::V>(
                    old(self).deep_view(),
                    key.deep_view(),
                ) == Option::Some(prev.deep_view()),
                Option::None => spec_map_get::<K, U::V>(old(self).deep_view(), key.deep_view())
                    is None,
            },
    {
        let ghost dv = self.deep_view();
        let ghost kdv = key.deep_view();
        let ghost vdv = value.deep_view();
        let ghost gkey = key;
        let ghost gvalue = value;
        proof {
            lemma_put_sorted::<K, U::V>(dv, kdv, vdv);
            assert(dv.skip(0) =~= dv);
        }
        let mut i: usize = 0;
        while i < self.entries.len()
            invariant
                self == old(self),
                old(self).wf(),
                key.wf(),
                value.wf(),
                dv.len() < u32::MAX,
                i <= dv.len(),
                dv == self.deep_view(),
                dv.len() == self.entries@.len(),
                kdv == key.deep_view(),
                vdv == value.deep_view(),
                gkey == key,
                gvalue == value,
                spec_map_put::<K, U::V>(dv, kdv, vdv) == dv.take(i as int) + spec_map_put::<
                    K,
                    U::V,
                >(dv.skip(i as int), kdv, vdv),
                spec_map_get::<K, U::V>(dv, kdv) == spec_map_get::<K, U::V>(dv.skip(i as int), kdv),
            decreases dv.len() - i,
        {
            let c = key.key_compare(&self.entries[i].0);
            proof {
                assert(dv.skip(i as int)[0] == dv[i as int]);
                assert(dv[i as int] == (self.entries@[i as int].0.deep_view(), self.entries@[i as int].1.deep_view()));
                assert(dv.skip(i as int).drop_first() =~= dv.skip(i + 1));
            }
            match c {
                KeyCmp::Less => {
                    proof {
                        lemma_put_sorted::<K, U::V>(dv, kdv, vdv);
                        assert(spec_map_put::<K, U::V>(dv.skip(i as int), kdv, vdv) == seq![
                            (kdv, vdv),
                        ] + dv.skip(i as int));
                        assert(spec_map_put::<K, U::V>(dv, kdv, vdv) =~= dv.take(i as int)
                            + (seq![(kdv, vdv)] + dv.skip(i as int)));
                        // sorted below the break point, so the key is absent
                        assert(spec_entries_sorted::<K, U::V>(dv.skip(i as int))) by {
                            assert(forall|a: int, b: int|
                                #![trigger dv.skip(i as int)[a], dv.skip(i as int)[b]]
                                0 <= a < b < dv.skip(i as int).len() ==> dv.skip(i as int)[a]
                                    == dv[a + i] && dv.skip(i as int)[b] == dv[b + i]);
                        }
                        lemma_get_below_all::<K, U::V>(dv.skip(i as int), kdv);
                    }
                    self.entries.insert(i, (key, value));
                    proof {
                        let oe = old(self).entries@;
                        oe.insert_ensures(i as int, (gkey, gvalue));
                        assert(self.entries@ == oe.insert(i as int, (gkey, gvalue)));
                        assert forall|j: int| 0 <= j < self.entries@.len() implies (
                        #[trigger] self.entries@[j].0.wf() && self.entries@[j].1.wf()) by {
                            if j < i {
                                assert(self.entries@[j] == oe[j]);
                                assert(oe[j].0.wf() && oe[j].1.wf());
                            } else if j == i {
                                assert(self.entries@[j] == (gkey, gvalue));
                            } else {
                                assert(self.entries@[j] == oe[j - 1]);
                                assert(oe[j - 1].0.wf() && oe[j - 1].1.wf());
                            }
                        }
                        assert(self.deep_view() =~= dv.take(i as int) + (seq![(kdv, vdv)]
                            + dv.skip(i as int)));
                    }
                    return None;
                },
                KeyCmp::Equal => {
                    proof {
                        lemma_put_sorted::<K, U::V>(dv, kdv, vdv);
                        K::lemma_key_order(kdv, dv[i as int].0, dv[i as int].0);
                        assert(!K::key_lt(kdv, dv.skip(i as int)[0].0));
                        assert(!K::key_lt(dv.skip(i as int)[0].0, kdv));
                        assert(spec_map_put::<K, U::V>(dv.skip(i as int), kdv, vdv) == seq![
                            (kdv, vdv),
                        ] + dv.skip(i + 1));
                        assert(spec_map_get::<K, U::V>(dv.skip(i as int), kdv) == Option::Some(
                            dv[i as int].1,
                        ));
                        assert(spec_map_put::<K, U::V>(dv, kdv, vdv) =~= dv.take(i as int)
                            + (seq![(kdv, vdv)] + dv.skip(i + 1)));
                    }
                    let prev = self.entries.remove(i);
                    self.entries.insert(i, (key, value));
                    proof {
                        let oe = old(self).entries@;
                        oe.remove_ensures(i as int);
                        oe.remove(i as int).insert_ensures(i as int, (gkey, gvalue));
                        assert(self.entries@ == oe.remove(i as int).insert(
                            i as int,
                            (gkey, gvalue),
                        ));
                        assert forall|j: int| 0 <= j < self.entries@.len() implies (
                        #[trigger] self.entries@[j].0.wf() && self.entries@[j].1.wf()) by {
                            if j < i {
                                assert(self.entries@[j] == oe.remove(i as int)[j]);
                                assert(oe.remove(i as int)[j] == oe[j]);
                                assert(oe[j].0.wf() && oe[j].1.wf());
                            } else if j == i {
                                assert(self.entries@[j] == (gkey, gvalue));
                            } else {
                                assert(self.entries@[j] == oe.remove(i as int)[j - 1]);
                                assert(oe.remove(i as int)[j - 1] == oe[j]);
                                assert(oe[j].0.wf() && oe[j].1.wf());
                            }
                        }
                        assert(self.deep_view() =~= dv.take(i as int) + (seq![(kdv, vdv)]
                            + dv.skip(i + 1)));
                        assert(prev.1.deep_view() == dv[i as int].1);
                    }
                    return Some(prev.1);
                },
                KeyCmp::Greater => {
                    proof {
                        K::lemma_key_order(kdv, dv[i as int].0, dv[i as int].0);
                        assert(dv.skip(i as int)[0].0 != kdv);
                        assert(spec_map_put::<K, U::V>(dv.skip(i as int), kdv, vdv) == seq![
                            dv[i as int],
                        ] + spec_map_put::<K, U::V>(dv.skip(i + 1), kdv, vdv));
                        assert(dv.take(i as int) + (seq![dv[i as int]] + spec_map_put::<K, U::V>(
                            dv.skip(i + 1),
                            kdv,
                            vdv,
                        )) =~= dv.take(i + 1) + spec_map_put::<K, U::V>(dv.skip(i + 1), kdv, vdv));
                    }
                    i = i + 1;
                },
            }
        }
        proof {
            assert(dv.skip(dv.len() as int) =~= Seq::<(K::V, U::V)>::empty());
            assert(spec_map_put::<K, U::V>(Seq::<(K::V, U::V)>::empty(), kdv, vdv) =~= seq![
                (kdv, vdv),
            ]);
            assert(spec_map_put::<K, U::V>(dv, kdv, vdv) =~= dv.take(dv.len() as int) + seq![
                (kdv, vdv),
            ]);
            assert(dv.take(dv.len() as int) =~= dv);
        }
        self.entries.push((key, value));
        proof {
            let oe = old(self).entries@;
            assert(self.entries@ == oe.push((gkey, gvalue)));
            assert forall|j: int| 0 <= j < self.entries@.len() implies (
            #[trigger] self.entries@[j].0.wf() && self.entries@[j].1.wf()) by {
                if j < oe.len() {
                    assert(self.entries@[j] == oe[j]);
                    assert(oe[j].0.wf() && oe[j].1.wf());
                } else {
                    assert(self.entries@[j] == (gkey, gvalue));
                }
            }
            assert(self.deep_view() =~= dv + seq![(kdv, vdv)]);
        }
        None
    }
}

impl<K: ReadWrite + OrderedKey, U: ReadWrite> ReadWrite for OrderedMap<K, U> {
    open spec fn wf(&self) -> bool {
        &&& self.entries@.len() <= u32::MAX
        &&& spec_entries_sorted::<K, U::V>(self.deep_view())
        &&& forall|i: int|
            #![trigger self.entries@[i]]
            0 <= i < self.entries@.len() ==> (self.entries@[i].0.wf() && self.entries@[i].1.wf())
    }

    open spec fn spec_enc(m: Seq<(K::V, U::V)>) -> Seq<u8> {
        spec_u32_to_be_bytes(m.len() as u32) + spec_enc_pairs::<K, U>(m)
    }

    open spec fn spec_dec(s: Seq<u8>) -> Result<(Seq<(K::V, U::V)>, int), DecodeError> {
        if s.len() < 4 {
            Err(DecodeError::Truncated)
        } else {
            let c = spec_u32_from_be_bytes(s.take(4));
            match spec_dec_pairs::<K, U>(s.skip(4), c as int, Seq::empty()) {
                Err(e) => Err(e),
                Ok((m, n)) => Ok((m, 4 + n)),
            }
        }
    }

    proof fn lemma_dec_bounds(s: Seq<u8>) {
        if s.len() >= 4 {
            let c = spec_u32_from_be_bytes(s.take(4));
            lemma_dec_pairs_bounds::<K, U>(s.skip(4), c as int, Seq::empty());
        }
    }

    proof fn lemma_round_trip(v: &OrderedMap<K, U>, tail: Seq<u8>) {
        let dv = v.deep_view();
        assert(dv =~= seq_deep_view(v.entries@));
        let c: u32 = dv.len() as u32;
        let eb = spec_enc_pairs::<K, U>(dv);
        let e = spec_u32_to_be_bytes(c) + eb;
        lemma_u32_be_round_trip(c);
        assert((e + tail).take(4) =~= spec_u32_to_be_bytes(c));
        assert((e + tail).skip(4) =~= eb + tail);
        assert(Seq::<(K::V, U::V)>::empty() + dv =~= dv);
        lemma_pairs_round_trip::<K, U>(v.entries@, Seq::empty(), tail);
    }

    fn read_from(reader: &mut Cursor) -> (r: Result<OrderedMap<K, U>, DecodeError>) {
        if reader.remaining_len() < 4 {
            return Err(DecodeError::Truncated);
        }
        let c = reader.read_u32_be();
        proof {
            assert(old(reader).stream().subrange(old(reader).offset(), old(reader).offset() + 4)
                =~= old(reader).remaining().take(4));
        }
        let count = c as usize;
        let ghost base = reader.remaining();
        let ghost base_off = reader.offset();
        let mut result: OrderedMap<K, U> = OrderedMap::new();
        let mut i: usize = 0;
        while i < count
            invariant
                reader.wf(),
                reader.stream() == old(reader).stream(),
                old(reader).wf(),
                old(reader).remaining().len() >= 4,
                count == spec_u32_from_be_bytes(old(reader).remaining().take(4)),
                count <= u32::MAX,
                base == old(reader).remaining().skip(4),
                base_off == old(reader).offset() + 4,
                base_off <= reader.offset() <= reader.stream().len(),
                i <= count,
                result.wf(),
                result.deep_view().len() <= i,
                match spec_dec_pairs::<K, U>(reader.remaining(), count - i, result.deep_view()) {
                    Ok((m, n)) => spec_dec_pairs::<K, U>(base, count as int, Seq::empty())
                        == Ok::<_, DecodeError>((m, (reader.offset() - base_off) + n)),
                    Err(e) => spec_dec_pairs::<K, U>(base, count as int, Seq::empty()) == Err::<
                        (Seq<(K::V, U::V)>, int),
                        _,
                    >(e),
                },
            decreases count - i,
        {
            let ghost rem_before = reader.remaining();
            let ghost off_before = reader.offset();
            let key = match K::read_from(reader) {
                Err(e) => {
                    proof {
                        assert(spec_dec_pairs::<K, U>(rem_before, count - i, result.deep_view())
                            == Err::<(Seq<(K::V, U::V)>, int), _>(e));
                    }
                    return Err(e);
                },
                Ok(key) => key,
            };
            proof {
                K::lemma_dec_bounds(rem_before);
                assert(reader.remaining() =~= rem_before.skip(reader.offset() - off_before));
            }
            let ghost rem_mid = reader.remaining();
            let ghost off_mid = reader.offset();
            let value = match U::read_from(reader) {
                Err(e) => {
                    proof {
                        assert(spec_dec_pairs::<K, U>(rem_before, count - i, result.deep_view())
                            == Err::<(Seq<(K::V, U::V)>, int), _>(e));
                    }
                    return Err(e);
                },
                Ok(value) => value,
            };
            proof {
                U::lemma_dec_bounds(rem_mid);
                assert(reader.remaining() =~= rem_mid.skip(reader.offset() - off_mid));
                assert(reader.remaining() =~= rem_before.skip(
                    (off_mid - off_before) + (reader.offset() - off_mid),
                ));
            }
            let ghost kdv = key.deep_view();
            let ghost vdv = value.deep_view();
            let ghost acc = result.deep_view();
            match result.insert(key, value) {
                Some(_) => {
                    proof {
                        assert(spec_dec_pairs::<K, U>(rem_before, count - i, acc) == Err::<
                            (Seq<(K::V, U::V)>, int),
                            _,
                        >(DecodeError::DuplicateMapKey));
                    }
                    return Err(DecodeError::DuplicateMapKey);
                },
                None => {},
            }
            i = i + 1;
            proof {
                lemma_put_sorted::<K, U::V>(acc, kdv, vdv);
                assert(result.deep_view() == spec_map_put::<K, U::V>(acc, kdv, vdv));
                let r2 = spec_dec_pairs::<K, U>(reader.remaining(), count - i, result.deep_view());
                match r2 {
                    Ok((m2, n2)) => {
                        assert(spec_dec_pairs::<K, U>(rem_before, count - (i - 1), acc) == Ok::<
                            _,
                            DecodeError,
                        >((m2, ((off_mid - off_before) + (reader.offset() - off_mid)) + n2)));
                    },
                    Err(e2) => {
                        assert(spec_dec_pairs::<K, U>(rem_before, count - (i - 1), acc) == Err::<
                            (Seq<(K::V, U::V)>, int),
                            _,
                        >(e2));
                    },
                }
            }
        }
        Ok(result)
    }

    fn write_to(&self, writer: &mut Vec<u8>) {
        let c: u32 = self.entries.len() as u32;
        writer.write_u32_be(c);
        let ghost base = writer@;
        let ghost dv = self.deep_view();
        let mut i: usize = 0;
        while i < self.entries.len()
            invariant
                base == old(writer)@ + spec_u32_to_be_bytes(dv.len() as u32),
                i <= dv.len(),
                dv == self.deep_view(),
                dv.len() == self.entries@.len(),
                self.wf(),
                writer@ == base + spec_enc_pairs::<K, U>(dv.take(i as int)),
            decreases dv.len() - i,
        {
            let pair = &self.entries[i];
            pair.0.write_to(writer);
            pair.1.write_to(writer);
            i = i + 1;
            proof {
                let prev = dv.take(i - 1);
                assert(dv.take(i as int) =~= prev.push(dv[i - 1]));
                lemma_enc_pairs_snoc::<K, U>(prev, dv[i - 1]);
                assert(dv[i - 1] == (self.entries@[i - 1].0.deep_view(), self.entries@[i - 1].1.deep_view()));
                assert((base + spec_enc_pairs::<K, U>(prev)) + (K::spec_enc(dv[i - 1].0)
                    + U::spec_enc(dv[i - 1].1)) =~= base + (spec_enc_pairs::<K, U>(prev)
                    + (K::spec_enc(dv[i - 1].0) + U::spec_enc(dv[i - 1].1))));
            }
        }
        proof {
            assert(dv.take(dv.len() as int) =~= dv);
            assert(base + spec_enc_pairs::<K, U>(dv) =~= old(writer)@ + <OrderedMap<
                K,
                U,
            > as ReadWrite>::spec_enc(dv));
        }
    }
}

/// The elements of a sequence are strictly increasing.
pub open spec fn spec_items_sorted<T: OrderedKey>(m: Seq<T::V>) -> bool {
    forall|i: int, j: int| #![trigger m[i], m[j]] 0 <= i < j < m.len() ==> T::key_lt(m[i], m[j])
}

/// Whether a value is stored.
pub open spec fn spec_set_has<T: OrderedKey>(m: Seq<T::V>, x: T::V) -> bool
    decreases m.len(),
{
    if m.len() == 0 {
        false
    } else if m[0] == x {
        true
    } else {
        spec_set_has::<T>(m.drop_first(), x)
    }
}

/// The element sequence after adding `x`: a new value enters at its ordered
/// position, a stored one leaves the sequence unchanged.
pub open spec fn spec_set_put<T: OrderedKey>(m: Seq<T::V>, x: T::V) -> Seq<T::V>
    decreases m.len(),
{
    if m.len() == 0 {
        seq![x]
    } else if T::key_lt(x, m[0]) {
        seq![x] + m
    } else if T::key_lt(m[0], x) {
        seq![m[0]] + spec_set_put::<T>(m.drop_first(), x)
    } else {
        m
    }
}

/// Adding preserves sortedness, and every resulting element is the new value
/// or one carried over.
pub proof fn lemma_set_put_sorted<T: OrderedKey>(m: Seq<T::V>, x: T::V)
    requires
        spec_items_sorted::<T>(m),
    ensures
        spec_items_sorted::<T>(spec_set_put::<T>(m, x)),
        m.len() <= spec_set_put::<T>(m, x).len() <= m.len() + 1,
        forall|j: int|
            0 <= j < spec_set_put::<T>(m, x).len() ==> (#[trigger] spec_set_put::<T>(m, x)[j] == x
                || m.contains(spec_set_put::<T>(m, x)[j])),
    decreases m.len(),
{
    let put = spec_set_put::<T>(m, x);
    if m.len() == 0 {
        assert(put =~= seq![x]);
    } else if T::key_lt(x, m[0]) {
        assert forall|i: int, j: int| 0 <= i < j < put.len() implies T::key_lt(
            #[trigger] put[i],
            #[trigger] put[j],
        ) by {
            if i == 0 && j > 1 {
                T::lemma_key_order(x, m[0], m[j - 1]);
            }
        }
        assert forall|j: int| 0 <= j < put.len() implies (#[trigger] put[j] == x || m.contains(
            put[j],
        )) by {
            if j > 0 {
                assert(put[j] == m[j - 1]);
            }
        }
    } else if T::key_lt(m[0], x) {
        let rest = m.drop_first();
        assert(spec_items_sorted::<T>(rest)) by {
            assert(forall|i: int, j: int|
                #![trigger rest[i], rest[j]]
                0 <= i < j < rest.len() ==> rest[i] == m[i + 1] && rest[j] == m[j + 1]);
        }
        lemma_set_put_sorted::<T>(rest, x);
        let putr = spec_set_put::<T>(rest, x);
        assert(put == seq![m[0]] + putr);
        assert forall|i: int, j: int| 0 <= i < j < put.len() implies T::key_lt(
            #[trigger] put[i],
            #[trigger] put[j],
        ) by {
            if i == 0 {
                assert(put[j] == putr[j - 1]);
                if putr[j - 1] == x {
                } else {
                    assert(rest.contains(putr[j - 1]));
                    let w = choose|w: int| 0 <= w < rest.len() && rest[w] == putr[j - 1];
                    assert(rest[w] == m[w + 1]);
                }
            } else {
                assert(put[i] == putr[i - 1]);
                assert(put[j] == putr[j - 1]);
            }
        }
        assert forall|j: int| 0 <= j < put.len() implies (#[trigger] put[j] == x || m.contains(
            put[j],
        )) by {
            if j == 0 {
                assert(m[0] == put[0]);
                assert(m.contains(put[0]));
            } else {
                assert(put[j] == putr[j - 1]);
                if putr[j - 1] == x {
                } else {
                    assert(rest.contains(putr[j - 1]));
                    let w = choose|w: int| 0 <= w < rest.len() && rest[w] == putr[j - 1];
                    assert(rest[w] == m[w + 1]);
                    assert(m.contains(put[j]));
                }
            }
        }
    } else {
        assert(forall|j: int| 0 <= j < put.len() ==> m.contains(#[trigger] put[j]));
    }
}

/// A value strictly above every stored one is absent, and adding it appends.
pub proof fn lemma_set_put_above_all<T: OrderedKey>(m: Seq<T::V>, x: T::V)
    requires
        forall|j: int| 0 <= j < m.len() ==> T::key_lt(#[trigger] m[j], x),
    ensures
        !spec_set_has::<T>(m, x),
        spec_set_put::<T>(m, x) == m.push(x),
    decreases m.len(),
{
    if m.len() == 0 {
        assert(spec_set_put::<T>(m, x) =~= m.push(x));
    } else {
        T::lemma_key_order(m[0], x, x);
        assert(m[0] != x);
        assert(!T::key_lt(x, m[0]));
        let rest = m.drop_first();
        assert(forall|j: int| 0 <= j < rest.len() ==> T::key_lt(#[trigger] rest[j], x)) by {
            assert(forall|j: int| 0 <= j < rest.len() ==> rest[j] == m[j + 1]);
        }
        lemma_set_put_above_all::<T>(rest, x);
        assert(seq![m[0]] + rest.push(x) =~= m.push(x));
    }
}

/// A value strictly below every stored one of a sorted sequence is absent.
pub proof fn lemma_set_has_below_all<T: OrderedKey>(m: Seq<T::V>, x: T::V)
    requires
        spec_items_sorted::<T>(m),
        m.len() > 0 ==> T::key_lt(x, m[0]),
    ensures
        !spec_set_has::<T>(m, x),
    decreases m.len(),
{
    if m.len() > 0 {
        T::lemma_key_order(x, m[0], m[0]);
        assert(m[0] != x);
        let rest = m.drop_first();
        assert(spec_items_sorted::<T>(rest)) by {
            assert(forall|i: int, j: int|
                #![trigger rest[i], rest[j]]
                0 <= i < j < rest.len() ==> rest[i] == m[i + 1] && rest[j] == m[j + 1]);
        }
        if rest.len() > 0 {
            assert(rest[0] == m[1]);
            T::lemma_key_order(x, m[0], m[1]);
        }
        lemma_set_has_below_all::<T>(rest, x);
    }
}

/// Decoding of exactly `count` set elements, each required to be strictly
/// greater than the one before it.
pub open spec fn spec_dec_set_items<T: ReadWrite + OrderedKey>(
    s: Seq<u8>,
    count: int,
    prev: Option<T::V>,
) -> Result<(Seq<T::V>, int), DecodeError>
    decreases count,
{
    if count <= 0 {
        Ok((Seq::empty(), 0))
    } else {
        match T::spec_dec(s) {
            Err(e) => Err(e),
            Ok((x, n)) => {
                if !(match prev {
                    Option::None => true,
                    Option::Some(p) => T::key_lt(p, x),
                }) {
                    Err(DecodeError::MisorderedSetEntry)
                } else {
                    match spec_dec_set_items::<T>(s.skip(n), count - 1, Option::Some(x)) {
                        Err(e) => Err(e),
                        Ok((xs, ns)) => Ok((seq![x] + xs, n + ns)),
                    }
                }
            },
        }
    }
}

pub proof fn lemma_dec_set_items_bounds<T: ReadWrite + OrderedKey>(
    s: Seq<u8>,
    count: int,
    prev: Option<T::V>,
)
    ensures
        spec_dec_set_items::<T>(s, count, prev) matches Ok((xs, n)) ==> 0 <= n <= s.len(),
    decreases count,
{
    if count > 0 {
        match T::spec_dec(s) {
            Err(_) => {},
            Ok((x, n)) => {
                T::lemma_dec_bounds(s);
                lemma_dec_set_items_bounds::<T>(s.skip(n), count - 1, Option::Some(x));
            },
        }
    }
}

/// Decoding the encoding of strictly increasing well-formed elements yields
/// exactly those elements back.
pub proof fn lemma_set_items_round_trip<T: ReadWrite + OrderedKey>(
    items: Seq<T>,
    prev: Option<T::V>,
    tail: Seq<u8>,
)
    requires
        forall|i: int| 0 <= i < items.len() ==> #[trigger] items[i].wf(),
        spec_items_sorted::<T>(seq_deep_view(items)),
        match prev {
            Option::None => true,
            Option::Some(p) => items.len() > 0 ==> T::key_lt(p, seq_deep_view(items)[0]),
        },
    ensures
        spec_dec_set_items::<T>(
            spec_enc_elems::<T>(seq_deep_view(items)) + tail,
            items.len() as int,
            prev,
        ) == Ok::<_, DecodeError>(
            (seq_deep_view(items), spec_enc_elems::<T>(seq_deep_view(items)).len() as int),
        ),
    decreases items.len(),
{
    let dv = seq_deep_view(items);
    if items.len() == 0 {
        assert(dv =~= Seq::<T::V>::empty());
        assert(spec_enc_elems::<T>(dv) + tail =~= tail);
    } else {
        let first = items[0];
        let rest = items.drop_first();
        let rdv = seq_deep_view(rest);
        assert(dv.drop_first() =~= rdv);
        assert(dv[0] == first.deep_view());
        let e0 = T::spec_enc(dv[0]);
        let erest = spec_enc_elems::<T>(rdv);
        assert(spec_enc_elems::<T>(dv) == e0 + erest);
        T::lemma_round_trip(&first, erest + tail);
        assert((e0 + erest) + tail =~= e0 + (erest + tail));
        T::lemma_dec_bounds(e0 + (erest + tail));
        assert((e0 + (erest + tail)).skip(e0.len() as int) =~= erest + tail);
        assert(spec_items_sorted::<T>(rdv)) by {
            assert(forall|i: int, j: int|
                #![trigger rdv[i], rdv[j]]
                0 <= i < j < rdv.len() ==> rdv[i] == dv[i + 1] && rdv[j] == dv[j + 1]);
        }
        if rest.len() > 0 {
            assert(rdv[0] == dv[1]);
            assert(T::key_lt(dv[0], dv[1]));
        }
        lemma_set_items_round_trip::<T>(rest, Option::Some(dv[0]), tail);
        assert(seq![dv[0]] + rdv =~= dv);
        assert(spec_dec_set_items::<T>(spec_enc_elems::<T>(dv) + tail, items.len() as int, prev)
            == Ok::<_, DecodeError>((dv, (e0.len() + erest.len()) as int)));
        assert((e0 + erest).len() == e0.len() + erest.len());
    }
}

/// A set whose elements travel strictly increasing: the in-memory items are
/// kept sorted, and decoding rejects any element not strictly greater than
/// its predecessor.
#[derive(Debug)]
pub struct OrderedSet<T> {
    /// The elements, kept strictly increasing.
    pub items: Vec<T>,
}

impl<T: DeepView> DeepView for OrderedSet<T> {
    type V = Seq<T::V>;

    open spec fn deep_view(&self) -> Seq<T::V> {
        self.items.deep_view()
    }
}

impl<T: ReadWrite + OrderedKey> OrderedSet<T> {
    pub fn new() -> (r: OrderedSet<T>)
        ensures
            r.deep_view() == Seq::<T::V>::empty(),
            r.wf(),
    {
        let r = OrderedSet { items: Vec::new() };
        proof {
            assert(r.deep_view() =~= Seq::<T::V>::empty());
        }
        r
    }

    pub fn len(&self) -> (r: usize)
        ensures
            r == self.deep_view().len(),
    {
        self.items.len()
    }

    /// Whether a value is stored.
    pub fn contains(&self, x: &T) -> (r: bool)
        requires
            self.wf(),
        ensures
            r == spec_set_has::<T>(self.deep_view(), x.deep_view()),
    {
        let ghost dv = self.deep_view();
        let ghost xdv = x.deep_view();
        proof {
            assert(dv.skip(0) =~= dv);
        }
        let mut i: usize = 0;
        while i < self.items.len()
            invariant
                i <= dv.len(),
                dv == self.deep_view(),
                dv.len() == self.items@.len(),
                xdv == x.deep_view(),
                spec_set_has::<T>(dv, xdv) == spec_set_has::<T>(dv.skip(i as int), xdv),
            decreases dv.len() - i,
        {
            let c = x.key_compare(&self.items[i]);
            proof {
                assert(dv.skip(i as int)[0] == dv[i as int]);
                assert(dv[i as int] == self.items@[i as int].deep_view());
                assert(dv.skip(i as int).drop_first() =~= dv.skip(i + 1));
            }
            match c {
                KeyCmp::Equal => {
                    proof {
                        assert(spec_set_has::<T>(dv.skip(i as int), xdv));
                    }
                    return true;
                },
                KeyCmp::Less => {
                    proof {
                        T::lemma_key_order(xdv, dv[i as int], dv[i as int]);
                        assert(dv.skip(i as int)[0] != xdv);
                    }
                    i = i + 1;
                },
                KeyCmp::Greater => {
                    proof {
                        T::lemma_key_order(xdv, dv[i as int], dv[i as int]);
                        assert(dv.skip(i as int)[0] != xdv);
                    }
                    i = i + 1;
                },
            }
        }
        proof {
            assert(dv.skip(dv.len() as int) =~= Seq::<T::V>::empty());
        }
        false
    }

    /// Add a value. Returns whether it was newly added; a value already
    /// stored leaves the set unchanged.
    pub fn insert(&mut self, value: T) -> (r: bool)
        requires
            old(self).wf(),
            value.wf(),
            old(self).deep_view().len() < u32::MAX,
        ensures
            final(self).wf(),
            final(self).deep_view() == spec_set_put::<T>(
                old(self).deep_view(),
                value.deep_view(),
            ),
            r == !spec_set_has::<T>(old(self).deep_view(), value.deep_view()),
    {
        let ghost dv = self.deep_view();
        let ghost xdv = value.deep_view();
        let ghost gvalue = value;
        proof {
            lemma_set_put_sorted::<T>(dv, xdv);
            assert(dv.skip(0) =~= dv);
        }
        let mut i: usize = 0;
        while i < self.items.len()
            invariant
                self == old(self),
                old(self).wf(),
                value.wf(),
                dv.len() < u32::MAX,
                i <= dv.len(),
                dv == self.deep_view(),
                dv.len() == self.items@.len(),
                xdv == value.deep_view(),
                gvalue == value,
                spec_set_put::<T>(dv, xdv) == dv.take(i as int) + spec_set_put::<T>(
                    dv.skip(i as int),
                    xdv,
                ),
                spec_set_has::<T>(dv, xdv) == spec_set_has::<T>(dv.skip(i as int), xdv),
            decreases dv.len() - i,
        {
            let c = value.key_compare(&self.items[i]);
            proof {
                assert(dv.skip(i as int)[0] == dv[i as int]);
                assert(dv[i as int] == self.items@[i as int].deep_view());
                assert(dv.skip(i as int).drop_first() =~= dv.skip(i + 1));
            }
            match c {
                KeyCmp::Less => {
                    proof {
                        lemma_set_put_sorted::<T>(dv, xdv);
                        assert(spec_set_put::<T>(dv.skip(i as int), xdv) == seq![xdv] + dv.skip(
                            i as int,
                        ));
                        assert(spec_set_put::<T>(dv, xdv) =~= dv.take(i as int) + (seq![xdv]
                            + dv.skip(i as int)));
                        assert(spec_items_sorted::<T>(dv.skip(i as int))) by {
                            assert(forall|a: int, b: int|
                                #![trigger dv.skip(i as int)[a], dv.skip(i as int)[b]]
                                0 <= a < b < dv.skip(i as int).len() ==> dv.skip(i as int)[a]
                                    == dv[a + i] && dv.skip(i as int)[b] == dv[b + i]);
                        }
                        lemma_set_has_below_all::<T>(dv.skip(i as int), xdv);
                    }
                    self.items.insert(i, value);
                    proof {
                        let oe = old(self).items@;
                        oe.insert_ensures(i as int, gvalue);
                        assert(self.items@ == oe.insert(i as int, gvalue));
                        assert forall|j: int|
                            #![trigger self.items@[j]]
                            0 <= j < self.items@.len() implies self.items@[j].wf() by {
                            if j < i {
                                assert(self.items@[j] == oe[j]);
                            } else if j == i {
                                assert(self.items@[j] == gvalue);
                            } else {
                                assert(self.items@[j] == oe[j - 1]);
                            }
                        }
                        assert(self.deep_view() =~= dv.take(i as int) + (seq![xdv] + dv.skip(
                            i as int,
                        )));
                    }
                    return true;
                },
                KeyCmp::Equal => {
                    proof {
                        T::lemma_key_order(xdv, dv[i as int], dv[i as int]);
                        assert(!T::key_lt(xdv, dv.skip(i as int)[0]));
                        assert(!T::key_lt(dv.skip(i as int)[0], xdv));
                        assert(spec_set_put::<T>(dv.skip(i as int), xdv) == dv.skip(i as int));
                        assert(spec_set_put::<T>(dv, xdv) =~= dv.take(i as int) + dv.skip(
                            i as int,
                        ));
                        assert(dv.take(i as int) + dv.skip(i as int) =~= dv);
                        assert(spec_set_has::<T>(dv.skip(i as int), xdv));
                    }
                    return false;
                },
                KeyCmp::Greater => {
                    proof {
                        T::lemma_key_order(xdv, dv[i as int], dv[i as int]);
                        assert(dv.skip(i as int)[0] != xdv);
                        assert(spec_set_put::<T>(dv.skip(i as int), xdv) == seq![dv[i as int]]
                            + spec_set_put::<T>(dv.skip(i + 1), xdv));
                        assert(dv.take(i as int) + (seq![dv[i as int]] + spec_set_put::<T>(
                            dv.skip(i + 1),
                            xdv,
                        )) =~= dv.take(i + 1) + spec_set_put::<T>(dv.skip(i + 1), xdv));
                    }
                    i = i + 1;
                },
            }
        }
        proof {
            assert(dv.skip(dv.len() as int) =~= Seq::<T::V>::empty());
            assert(spec_set_put::<T>(Seq::<T::V>::empty(), xdv) =~= seq![xdv]);
            assert(spec_set_put::<T>(dv, xdv) =~= dv.take(dv.len() as int) + seq![xdv]);
            assert(dv.take(dv.len() as int) =~= dv);
        }
        self.items.push(value);
        proof {
            let oe = old(self).items@;
            assert(self.items@ == oe.push(gvalue));
            assert forall|j: int|
                #![trigger self.items@[j]]
                0 <= j < self.items@.len() implies self.items@[j].wf() by {
                if j < oe.len() {
                    assert(self.items@[j] == oe[j]);
                } else {
                    assert(self.items@[j] == gvalue);
                }
            }
            assert(self.deep_view() =~= dv + seq![xdv]);
        }
        true
    }
}

impl<T: ReadWrite + OrderedKey> ReadWrite for OrderedSet<T> {
    open spec fn wf(&self) -> bool {
        &&& self.items@.len() <= u32::MAX
        &&& spec_items_sorted::<T>(self.deep_view())
        &&& forall|i: int|
            #![trigger self.items@[i]]
            0 <= i < self.items@.len() ==> self.items@[i].wf()
    }

    open spec fn spec_enc(m: Seq<T::V>) -> Seq<u8> {
        spec_u32_to_le_bytes(m.len() as u32) + spec_enc_elems::<T>(m)
    }

    open spec fn spec_dec(s: Seq<u8>) -> Result<(Seq<T::V>, int), DecodeError> {
        if s.len() < 4 {
            Err(DecodeError::Truncated)
        } else {
            let c = spec_u32_from_le_bytes(s.take(4));
            match spec_dec_set_items::<T>(s.skip(4), c as int, Option::None) {
                Err(e) => Err(e),
                Ok((m, n)) => Ok((m, 4 + n)),
            }
        }
    }

    proof fn lemma_dec_bounds(s: Seq<u8>) {
        if s.len() >= 4 {
            let c = spec_u32_from_le_bytes(s.take(4));
            lemma_dec_set_items_bounds::<T>(s.skip(4), c as int, Option::None);
        }
    }

    proof fn lemma_round_trip(v: &OrderedSet<T>, tail: Seq<u8>) {
        let dv = v.deep_view();
        assert(dv =~= seq_deep_view(v.items@));
        let c: u32 = dv.len() as u32;
        let eb = spec_enc_elems::<T>(dv);
        let e = spec_u32_to_le_bytes(c) + eb;
        lemma_u32_le_round_trip(c);
        assert((e + tail).take(4) =~= spec_u32_to_le_bytes(c));
        assert((e + tail).skip(4) =~= eb + tail);
        lemma_set_items_round_trip::<T>(v.items@, Option::None, tail);
    }

    fn read_from(reader: &mut Cursor) -> (r: Result<OrderedSet<T>, DecodeError>) {
        if reader.remaining_len() < 4 {
            return Err(DecodeError::Truncated);
        }
        let c = reader.read_u32_le();
        proof {
            assert(old(reader).stream().subrange(old(reader).offset(), old(reader).offset() + 4)
                =~= old(reader).remaining().take(4));
        }
        let count = c as usize;
        let ghost base = reader.remaining();
        let ghost base_off = reader.offset();
        let mut result: OrderedSet<T> = OrderedSet::new();
        let mut i: usize = 0;
        while i < count
            invariant
                reader.wf(),
                reader.stream() == old(reader).stream(),
                old(reader).wf(),
                old(reader).remaining().len() >= 4,
                count == spec_u32_from_le_bytes(old(reader).remaining().take(4)),
                count <= u32::MAX,
                base == old(reader).remaining().skip(4),
                base_off == old(reader).offset() + 4,
                base_off <= reader.offset() <= reader.stream().len(),
                i <= count,
                result.wf(),
                result.deep_view().len() == i,
                match spec_dec_set_items::<T>(
                    reader.remaining(),
                    count - i,
                    if i == 0 {
                        Option::None
                    } else {
                        Option::Some(result.deep_view().last())
                    },
                ) {
                    Ok((xs, n)) => spec_dec_set_items::<T>(base, count as int, Option::None)
                        == Ok::<_, DecodeError>(
                        (result.deep_view() + xs, (reader.offset() - base_off) + n),
                    ),
                    Err(e) => spec_dec_set_items::<T>(base, count as int, Option::None) == Err::<
                        (Seq<T::V>, int),
                        _,
                    >(e),
                },
            decreases count - i,
        {
            let ghost rem_before = reader.remaining();
            let ghost off_before = reader.offset();
            let ghost prev = if i == 0 {
                Option::<T::V>::None
            } else {
                Option::Some(result.deep_view().last())
            };
            let item = match T::read_from(reader) {
                Err(e) => {
                    proof {
                        assert(spec_dec_set_items::<T>(rem_before, count - i, prev) == Err::<
                            (Seq<T::V>, int),
                            _,
                        >(e));
                    }
                    return Err(e);
                },
                Ok(item) => item,
            };
            proof {
                T::lemma_dec_bounds(rem_before);
                assert(reader.remaining() =~= rem_before.skip(reader.offset() - off_before));
            }
            if result.items.len() > 0 {
                let last_index = result.items.len() - 1;
                let c2 = result.items[last_index].key_compare(&item);
                proof {
                    assert(result.items@[last_index as int].deep_view()
                        == result.deep_view().last());
                }
                match c2 {
                    KeyCmp::Less => {},
                    KeyCmp::Equal => {
                        proof {
                            T::lemma_key_order(
                                result.deep_view().last(),
                                item.deep_view(),
                                item.deep_view(),
                            );
                            assert(spec_dec_set_items::<T>(rem_before, count - i, prev) == Err::<
                                (Seq<T::V>, int),
                                _,
                            >(DecodeError::MisorderedSetEntry));
                        }
                        return Err(DecodeError::MisorderedSetEntry);
                    },
                    KeyCmp::Greater => {
                        proof {
                            T::lemma_key_order(
                                result.deep_view().last(),
                                item.deep_view(),
                                item.deep_view(),
                            );
                            assert(spec_dec_set_items::<T>(rem_before, count - i, prev) == Err::<
                                (Seq<T::V>, int),
                                _,
                            >(DecodeError::MisorderedSetEntry));
                        }
                        return Err(DecodeError::MisorderedSetEntry);
                    },
                }
            }
            let ghost acc = result.deep_view();
            let ghost idv = item.deep_view();
            let ghost gitem = item;
            let ghost pre_items = result.items@;
            result.items.push(item);
            i = i + 1;
            proof {
                assert(result.items@ == pre_items.push(gitem));
                assert(result.deep_view() =~= acc.push(idv));
                assert forall|j: int| 0 <= j < acc.len() implies T::key_lt(
                    #[trigger] acc[j],
                    idv,
                ) by {
                    if j < acc.len() - 1 {
                        assert(T::key_lt(acc[j], acc[acc.len() - 1]));
                        T::lemma_key_order(acc[j], acc[acc.len() - 1], idv);
                    }
                }
                assert forall|a: int, b: int|
                    #![trigger result.deep_view()[a], result.deep_view()[b]]
                    0 <= a < b < result.deep_view().len() implies T::key_lt(
                    result.deep_view()[a],
                    result.deep_view()[b],
                ) by {
                    assert(result.deep_view()[a] == acc[a]);
                    if b < acc.len() {
                        assert(result.deep_view()[b] == acc[b]);
                    } else {
                        assert(result.deep_view()[b] == idv);
                    }
                }
                assert forall|j: int|
                    #![trigger result.items@[j]]
                    0 <= j < result.items@.len() implies result.items@[j].wf() by {
                    if j < pre_items.len() {
                        assert(result.items@[j] == pre_items[j]);
                    } else {
                        assert(result.items@[j] == gitem);
                    }
                }
                let k = reader.offset() - off_before;
                let r2 = spec_dec_set_items::<T>(reader.remaining(), count - i, Option::Some(idv));
                assert(result.deep_view().last() == idv);
                match r2 {
                    Ok((xs2, n2)) => {
                        assert(spec_dec_set_items::<T>(rem_before, count - (i - 1), prev) == Ok::<
                            _,
                            DecodeError,
                        >((seq![idv] + xs2, k + n2)));
                        assert(acc + (seq![idv] + xs2) =~= result.deep_view() + xs2);
                    },
                    Err(e2) => {
                        assert(spec_dec_set_items::<T>(rem_before, count - (i - 1), prev) == Err::<
                            (Seq<T::V>, int),
                            _,
                        >(e2));
                    },
                }
            }
        }
        proof {
            assert(result.deep_view() + Seq::<T::V>::empty() =~= result.deep_view());
        }
        Ok(result)
    }

    fn write_to(&self, writer: &mut Vec<u8>) {
        let c: u32 = self.items.len() as u32;
        writer.write_u32_le(c);
        let ghost base = writer@;
        let ghost dv = self.deep_view();
        let mut i: usize = 0;
        while i < self.items.len()
            invariant
                base == old(writer)@ + spec_u32_to_le_bytes(dv.len() as u32),
                i <= dv.len(),
                dv == self.deep_view(),
                dv.len() == self.items@.len(),
                self.wf(),
                writer@ == base + spec_enc_elems::<T>(dv.take(i as int)),
            decreases dv.len() - i,
        {
            let elem = &self.items[i];
            elem.write_to(writer);
            i = i + 1;
            proof {
                let prev = dv.take(i - 1);
                assert(dv.take(i as int) =~= prev.push(dv[i - 1]));
                lemma_enc_elems_snoc::<T>(prev, dv[i - 1]);
                assert(dv[i - 1] == self.items@[i - 1].deep_view());
                assert((base + spec_enc_elems::<T>(prev)) + T::spec_enc(dv[i - 1]) =~= base + (
                spec_enc_elems::<T>(prev) + T::spec_enc(dv[i - 1])));
            }
        }
        proof {
            assert(dv.take(dv.len() as int) =~= dv);
            assert(base + spec_enc_elems::<T>(dv) =~= old(writer)@ + <OrderedSet<
                T,
            > as ReadWrite>::spec_enc(dv));
        }
    }
}

/// Some stored pair carries this key.
pub open spec fn spec_key_in<K: OrderedKey, T>(m: Seq<(K::V, T)>, k: K::V) -> bool {
    exists|i: int| 0 <= i < m.len() && #[trigger] m[i].0 == k
}

/// A key is found exactly when some pair carries it, in any order.
pub proof fn lemma_get_iff_key_in<K: OrderedKey, T>(m: Seq<(K::V, T)>, k: K::V)
    ensures
        (spec_map_get::<K, T>(m, k) is Some) == spec_key_in::<K, T>(m, k),
    decreases m.len(),
{
    if m.len() > 0 {
        if m[0].0 == k {
        } else {
            lemma_get_iff_key_in::<K, T>(m.drop_first(), k);
            let rest = m.drop_first();
            if spec_key_in::<K, T>(rest, k) {
                let w = choose|w: int| 0 <= w < rest.len() && #[trigger] rest[w].0 == k;
                assert(m[w + 1].0 == k);
            }
            if spec_key_in::<K, T>(m, k) {
                let w = choose|w: int| 0 <= w < m.len() && #[trigger] m[w].0 == k;
                assert(rest[w - 1].0 == k);
            }
        }
    }
}

/// Binding a key stores exactly the old keys plus the new one.
pub proof fn lemma_put_keys<K: OrderedKey, T>(m: Seq<(K::V, T)>, k: K::V, v: T, x: K::V)
    ensures
        spec_key_in::<K, T>(spec_map_put::<K, T>(m, k, v), x) == (spec_key_in::<K, T>(m, x) || x
            == k),
    decreases m.len(),
{
    let put = spec_map_put::<K, T>(m, k, v);
    if m.len() == 0 {
        assert(put[0].0 == k);
        if spec_key_in::<K, T>(put, x) {
            let w = choose|w: int| 0 <= w < put.len() && #[trigger] put[w].0 == x;
            assert(w == 0);
        }
    } else if K::key_lt(k, m[0].0) {
        assert(put[0].0 == k);
        assert(forall|j: int| 0 <= j < m.len() ==> put[j + 1] == #[trigger] m[j]);
        if spec_key_in::<K, T>(put, x) && x != k {
            let w = choose|w: int| 0 <= w < put.len() && #[trigger] put[w].0 == x;
            assert(w > 0);
            assert(m[w - 1].0 == x);
        }
        if spec_key_in::<K, T>(m, x) {
            let w = choose|w: int| 0 <= w < m.len() && #[trigger] m[w].0 == x;
            assert(put[w + 1].0 == x);
        }
    } else if K::key_lt(m[0].0, k) {
        let rest = m.drop_first();
        lemma_put_keys::<K, T>(rest, k, v, x);
        let putr = spec_map_put::<K, T>(rest, k, v);
        assert(put == seq![m[0]] + putr);
        assert(put[0] == m[0]);
        assert(forall|j: int| 0 <= j < putr.len() ==> put[j + 1] == #[trigger] putr[j]);
        if spec_key_in::<K, T>(put, x) {
            let w = choose|w: int| 0 <= w < put.len() && #[trigger] put[w].0 == x;
            if w == 0 {
                assert(m[0].0 == x);
            } else {
                assert(putr[w - 1].0 == x);
            }
        }
        if spec_key_in::<K, T>(m, x) {
            let w = choose|w: int| 0 <= w < m.len() && #[trigger] m[w].0 == x;
            if w == 0 {
                assert(put[0].0 == x);
            } else {
                assert(rest[w - 1].0 == x);
                assert(spec_key_in::<K, T>(rest, x));
                let w2 = choose|w2: int| 0 <= w2 < putr.len() && #[trigger] putr[w2].0 == x;
                assert(put[w2 + 1].0 == x);
            }
        }
        if x == k {
            assert(spec_key_in::<K, T>(putr, x));
            let w2 = choose|w2: int| 0 <= w2 < putr.len() && #[trigger] putr[w2].0 == x;
            assert(put[w2 + 1].0 == x);
        }
    } else {
        K::lemma_key_order(k, m[0].0, m[0].0);
        assert(k == m[0].0);
        let rest = m.drop_first();
        assert(put == seq![(k, v)] + rest);
        assert(put[0].0 == k);
        assert(forall|j: int| 0 <= j < rest.len() ==> put[j + 1] == #[trigger] rest[j]);
        if spec_key_in::<K, T>(put, x) && x != k {
            let w = choose|w: int| 0 <= w < put.len() && #[trigger] put[w].0 == x;
            assert(w > 0);
            assert(m[w].0 == x);
        }
        if spec_key_in::<K, T>(m, x) && x != k {
            let w = choose|w: int| 0 <= w < m.len() && #[trigger] m[w].0 == x;
            assert(w > 0);
            assert(put[w].0 == x);
        }
    }
}

/// A stream of well-formed pairs, their keys in any order, decodes
/// successfully exactly when no key repeats and none collides with the
/// accumulator; a repeat is rejected as a duplicate key.
pub proof fn lemma_map_stream_decode<K: ReadWrite + OrderedKey, U: ReadWrite>(
    pairs: Seq<(K, U)>,
    acc: Seq<(K::V, U::V)>,
    tail: Seq<u8>,
)
    requires
        forall|i: int| 0 <= i < pairs.len() ==> (#[trigger] pairs[i].0.wf() && pairs[i].1.wf()),
    ensures
        ({
            let dv = seq_deep_view(pairs);
            let r = spec_dec_pairs::<K, U>(
                spec_enc_pairs::<K, U>(dv) + tail,
                pairs.len() as int,
                acc,
            );
            if (forall|i: int, j: int|
                #![trigger dv[i], dv[j]]
                0 <= i < j < dv.len() ==> dv[i].0 != dv[j].0) && (forall|i: int|
                0 <= i < dv.len() ==> !spec_key_in::<K, U::V>(acc, #[trigger] dv[i].0)) {
                r matches Ok((m, n)) && n == spec_enc_pairs::<K, U>(dv).len()
            } else {
                r == Err::<(Seq<(K::V, U::V)>, int), DecodeError>(DecodeError::DuplicateMapKey)
            }
        }),
    decreases pairs.len(),
{
    let dv = seq_deep_view(pairs);
    if pairs.len() == 0 {
        assert(spec_enc_pairs::<K, U>(dv) + tail =~= tail);
    } else {
        let k0 = pairs[0].0;
        let v0 = pairs[0].1;
        assert(pairs[0].0.wf());
        assert(pairs[0].1.wf());
        let rest = pairs.drop_first();
        let rdv = seq_deep_view(rest);
        assert(dv.drop_first() =~= rdv);
        assert(dv[0] == (k0.deep_view(), v0.deep_view()));
        assert forall|q: int| 0 <= q < rest.len() implies (#[trigger] rest[q].0.wf()
            && rest[q].1.wf()) by {
            assert(rest[q] == pairs[q + 1]);
            assert(pairs[q + 1].0.wf());
        }
        let ek = K::spec_enc(k0.deep_view());
        let ev = U::spec_enc(v0.deep_view());
        let erest = spec_enc_pairs::<K, U>(rdv);
        assert(spec_enc_pairs::<K, U>(dv) == ek + ev + erest);
        K::lemma_round_trip(&k0, ev + (erest + tail));
        assert(((ek + ev) + erest) + tail =~= ek + (ev + (erest + tail)));
        K::lemma_dec_bounds(ek + (ev + (erest + tail)));
        assert((ek + (ev + (erest + tail))).skip(ek.len() as int) =~= ev + (erest + tail));
        U::lemma_round_trip(&v0, erest + tail);
        assert((ev + (erest + tail)).skip(ev.len() as int) =~= erest + tail);
        assert((ek + (ev + (erest + tail))).skip(ek.len() as int + ev.len() as int) =~= erest
            + tail);
        lemma_get_iff_key_in::<K, U::V>(acc, k0.deep_view());
        if spec_key_in::<K, U::V>(acc, k0.deep_view()) {
            assert(spec_dec_pairs::<K, U>(
                spec_enc_pairs::<K, U>(dv) + tail,
                pairs.len() as int,
                acc,
            ) == Err::<(Seq<(K::V, U::V)>, int), DecodeError>(DecodeError::DuplicateMapKey));
            assert(!((forall|i: int, j: int|
                #![trigger dv[i], dv[j]]
                0 <= i < j < dv.len() ==> dv[i].0 != dv[j].0) && (forall|i: int|
                0 <= i < dv.len() ==> !spec_key_in::<K, U::V>(acc, #[trigger] dv[i].0)))) by {
                assert(spec_key_in::<K, U::V>(acc, dv[0].0));
            }
        } else {
            let acc2 = spec_map_put::<K, U::V>(acc, k0.deep_view(), v0.deep_view());
            lemma_map_stream_decode::<K, U>(rest, acc2, tail);
            assert forall|x: K::V|
                spec_key_in::<K, U::V>(acc2, x) == (spec_key_in::<K, U::V>(acc, x) || x
                    == k0.deep_view()) by {
                lemma_put_keys::<K, U::V>(acc, k0.deep_view(), v0.deep_view(), x);
            }
            let outer_ok = (forall|i: int, j: int|
                #![trigger dv[i], dv[j]]
                0 <= i < j < dv.len() ==> dv[i].0 != dv[j].0) && (forall|i: int|
                0 <= i < dv.len() ==> !spec_key_in::<K, U::V>(acc, #[trigger] dv[i].0));
            let inner_ok = (forall|i: int, j: int|
                #![trigger rdv[i], rdv[j]]
                0 <= i < j < rdv.len() ==> rdv[i].0 != rdv[j].0) && (forall|i: int|
                0 <= i < rdv.len() ==> !spec_key_in::<K, U::V>(acc2, #[trigger] rdv[i].0));
            assert(outer_ok ==> inner_ok) by {
                if outer_ok {
                    assert forall|i: int, j: int|
                        #![trigger rdv[i], rdv[j]]
                        0 <= i < j < rdv.len() implies rdv[i].0 != rdv[j].0 by {
                        assert(rdv[i] == dv[i + 1]);
                        assert(rdv[j] == dv[j + 1]);
                    }
                    assert forall|i: int| 0 <= i < rdv.len() implies !spec_key_in::<K, U::V>(
                        acc2,
                        #[trigger] rdv[i].0,
                    ) by {
                        assert(rdv[i] == dv[i + 1]);
                        assert(!spec_key_in::<K, U::V>(acc, dv[i + 1].0));
                        assert(dv[0].0 != dv[i + 1].0);
                    }
                }
            }
            assert(inner_ok ==> outer_ok) by {
                if inner_ok && !outer_ok {
                    if exists|i: int, j: int|
                        #![trigger dv[i], dv[j]]
                        0 <= i < j < dv.len() && dv[i].0 == dv[j].0 {
                        let (i, j) = choose|i: int, j: int|
                            #![trigger dv[i], dv[j]]
                            0 <= i < j < dv.len() && dv[i].0 == dv[j].0;
                        if i == 0 {
                            assert(rdv[j - 1] == dv[j]);
                            assert(spec_key_in::<K, U::V>(acc2, rdv[j - 1].0));
                            assert(false);
                        } else {
                            assert(rdv[i - 1] == dv[i]);
                            assert(rdv[j - 1] == dv[j]);
                            assert(false);
                        }
                    } else {
                        let i = choose|i: int|
                            0 <= i < dv.len() && spec_key_in::<K, U::V>(
                                acc,
                                #[trigger] dv[i].0,
                            );
                        assert(i > 0);
                        assert(rdv[i - 1] == dv[i]);
                        assert(spec_key_in::<K, U::V>(acc2, rdv[i - 1].0));
                        assert(false);
                    }
                }
            }
        }
    }
}

/// A stream of well-formed set elements decodes successfully exactly when
/// each element is strictly greater than the one before it (and the first
/// greater than the given predecessor); any other order is rejected as
/// misordered.
pub proof fn lemma_set_stream_decode<T: ReadWrite + OrderedKey>(
    items: Seq<T>,
    prev: Option<T::V>,
    tail: Seq<u8>,
)
    requires
        forall|i: int| 0 <= i < items.len() ==> #[trigger] items[i].wf(),
    ensures
        ({
            let dv = seq_deep_view(items);
            let ok = (forall|i: int|
                0 <= i < dv.len() - 1 ==> T::key_lt(#[trigger] dv[i], dv[i + 1])) && (match prev {
                Option::None => true,
                Option::Some(p) => dv.len() > 0 ==> T::key_lt(p, dv[0]),
            });
            let r = spec_dec_set_items::<T>(
                spec_enc_elems::<T>(dv) + tail,
                items.len() as int,
                prev,
            );
            if ok {
                r matches Ok((xs, n)) && xs == dv && n == spec_enc_elems::<T>(dv).len()
            } else {
                r == Err::<(Seq<T::V>, int), DecodeError>(DecodeError::MisorderedSetEntry)
            }
        }),
    decreases items.len(),
{
    let dv = seq_deep_view(items);
    if items.len() == 0 {
        assert(spec_enc_elems::<T>(dv) + tail =~= tail);
        assert(dv =~= Seq::<T::V>::empty());
    } else {
        let first = items[0];
        assert(items[0].wf());
        let rest = items.drop_first();
        let rdv = seq_deep_view(rest);
        assert(dv.drop_first() =~= rdv);
        assert(dv[0] == first.deep_view());
        assert forall|q: int| 0 <= q < rest.len() implies #[trigger] rest[q].wf() by {
            assert(rest[q] == items[q + 1]);
        }
        let e0 = T::spec_enc(dv[0]);
        let erest = spec_enc_elems::<T>(rdv);
        assert(spec_enc_elems::<T>(dv) == e0 + erest);
        T::lemma_round_trip(&first, erest + tail);
        assert((e0 + erest) + tail =~= e0 + (erest + tail));
        T::lemma_dec_bounds(e0 + (erest + tail));
        assert((e0 + (erest + tail)).skip(e0.len() as int) =~= erest + tail);
        let prev_ok = match prev {
            Option::None => true,
            Option::Some(p) => T::key_lt(p, dv[0]),
        };
        if !prev_ok {
            assert(spec_dec_set_items::<T>(spec_enc_elems::<T>(dv) + tail, items.len() as int, prev)
                == Err::<(Seq<T::V>, int), DecodeError>(DecodeError::MisorderedSetEntry));
        } else {
            lemma_set_stream_decode::<T>(rest, Option::Some(dv[0]), tail);
            let outer_adj = forall|i: int|
                0 <= i < dv.len() - 1 ==> T::key_lt(#[trigger] dv[i], dv[i + 1]);
            let inner_adj = forall|i: int|
                0 <= i < rdv.len() - 1 ==> T::key_lt(#[trigger] rdv[i], rdv[i + 1]);
            let inner_prev = rdv.len() > 0 ==> T::key_lt(dv[0], rdv[0]);
            assert(outer_adj ==> inner_adj && inner_prev) by {
                if outer_adj {
                    assert forall|i: int| 0 <= i < rdv.len() - 1 implies T::key_lt(
                        #[trigger] rdv[i],
                        rdv[i + 1],
                    ) by {
                        assert(rdv[i] == dv[i + 1]);
                        assert(rdv[i + 1] == dv[i + 2]);
                        assert(T::key_lt(dv[i + 1], dv[i + 2]));
                    }
                    if rdv.len() > 0 {
                        assert(rdv[0] == dv[1]);
                        assert(T::key_lt(dv[0], dv[1]));
                    }
                }
            }
            assert((inner_adj && inner_prev) ==> outer_adj) by {
                if inner_adj && inner_prev {
                    assert forall|i: int| 0 <= i < dv.len() - 1 implies T::key_lt(
                        #[trigger] dv[i],
                        dv[i + 1],
                    ) by {
                        if i == 0 {
                            assert(rdv[0] == dv[1]);
                        } else {
                            assert(rdv[i - 1] == dv[i]);
                            assert(rdv[i] == dv[i + 1]);
                            assert(T::key_lt(rdv[i - 1], rdv[i]));
                        }
                    }
                }
            }
            if inner_adj && inner_prev {
                assert(seq![dv[0]] + rdv =~= dv);
                assert((e0 + erest).len() == e0.len() + erest.len());
            }
        }
    }
}

} // verus!
