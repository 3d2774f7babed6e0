//! Codecs for sets and maps with integer keys: the number of keys or
//! entries as a `VarLen`, then the keys, or each key and its value, in
//! increasing key order.
use vstd::prelude::*;

verus! {

use std::collections::{BTreeMap, BTreeSet, HashMap, HashSet};
use vstd::std_specs::btree::{spec_btree_keys_iter, spec_btree_map_iter, spec_keys_iter, increasing_seq};
use vstd::std_specs::iter::IteratorSpec;
use crate::codec::{Modeled, RoundTrip};
use vstd::std_specs::cmp::OrdSpec;
use crate::dec::{BitDecode, BitReader, consumed_from};
use crate::enc::{BitEncode, BitWriter};
use crate::error::CodecError;
use crate::seqs::{models, encode_all, encode_counted, decode_counted, decode_n, lemma_encode_all_push, lemma_encode_all_error};
use crate::var_len::{VarLen, varlen_bits};

/// An integer that can key an ordered set or map: it is its own model, and
/// it is ordered as a number.
pub trait IntKey: Ord + Copy + std::hash::Hash + BitEncode + BitDecode + Modeled<Model = Self> {
    /// The number.
    spec fn key_val(self) -> int;

    /// The order of keys is that of their numbers.
    proof fn lemma_key_order()
        ensures
            vstd::laws_cmp::obeys_cmp::<Self>(),
            forall|a: Self, b: Self| #[trigger] a.cmp_spec(&b) is Less <==> a.key_val() < b.key_val(),
            forall|a: Self, b: Self| a.key_val() == b.key_val() ==> a == b,
            forall|a: Self| #[trigger] a.model() == a,
            vstd::std_specs::hash::obeys_key_model::<Self>(),
    ;
}

impl IntKey for u8 {
    open spec fn key_val(self) -> int {
        self as int
    }

    proof fn lemma_key_order() {
        broadcast use vstd::laws_cmp::group_laws_cmp;
        broadcast use vstd::std_specs::hash::group_hash_axioms;
    }
}
impl IntKey for u16 {
    open spec fn key_val(self) -> int {
        self as int
    }

    proof fn lemma_key_order() {
        broadcast use vstd::laws_cmp::group_laws_cmp;
        broadcast use vstd::std_specs::hash::group_hash_axioms;
    }
}
impl IntKey for u32 {
    open spec fn key_val(self) -> int {
        self as int
    }

    proof fn lemma_key_order() {
        broadcast use vstd::laws_cmp::group_laws_cmp;
        broadcast use vstd::std_specs::hash::group_hash_axioms;
    }
}
impl IntKey for u64 {
    open spec fn key_val(self) -> int {
        self as int
    }

    proof fn lemma_key_order() {
        broadcast use vstd::laws_cmp::group_laws_cmp;
        broadcast use vstd::std_specs::hash::group_hash_axioms;
    }
}
impl IntKey for u128 {
    open spec fn key_val(self) -> int {
        self as int
    }

    proof fn lemma_key_order() {
        broadcast use vstd::laws_cmp::group_laws_cmp;
        broadcast use vstd::std_specs::hash::group_hash_axioms;
    }
}
impl IntKey for usize {
    open spec fn key_val(self) -> int {
        self as int
    }

    proof fn lemma_key_order() {
        broadcast use vstd::laws_cmp::group_laws_cmp;
        broadcast use vstd::std_specs::hash::group_hash_axioms;
    }
}
impl IntKey for i8 {
    open spec fn key_val(self) -> int {
        self as int
    }

    proof fn lemma_key_order() {
        broadcast use vstd::laws_cmp::group_laws_cmp;
        broadcast use vstd::std_specs::hash::group_hash_axioms;
    }
}
impl IntKey for i16 {
    open spec fn key_val(self) -> int {
        self as int
    }

    proof fn lemma_key_order() {
        broadcast use vstd::laws_cmp::group_laws_cmp;
        broadcast use vstd::std_specs::hash::group_hash_axioms;
    }
}
impl IntKey for i32 {
    open spec fn key_val(self) -> int {
        self as int
    }

    proof fn lemma_key_order() {
        broadcast use vstd::laws_cmp::group_laws_cmp;
        broadcast use vstd::std_specs::hash::group_hash_axioms;
    }
}
impl IntKey for i64 {
    open spec fn key_val(self) -> int {
        self as int
    }

    proof fn lemma_key_order() {
        broadcast use vstd::laws_cmp::group_laws_cmp;
        broadcast use vstd::std_specs::hash::group_hash_axioms;
    }
}
impl IntKey for i128 {
    open spec fn key_val(self) -> int {
        self as int
    }

    proof fn lemma_key_order() {
        broadcast use vstd::laws_cmp::group_laws_cmp;
        broadcast use vstd::std_specs::hash::group_hash_axioms;
    }
}
impl IntKey for isize {
    open spec fn key_val(self) -> int {
        self as int
    }

    proof fn lemma_key_order() {
        broadcast use vstd::laws_cmp::group_laws_cmp;
        broadcast use vstd::std_specs::hash::group_hash_axioms;
    }
}


/// Keys in strictly increasing order.
pub open spec fn increasing<K: IntKey>(q: Seq<K>) -> bool {
    forall|i: int, j: int| 0 <= i < j < q.len() ==> q[i].key_val() < q[j].key_val()
}

/// The keys of a set in increasing order.
pub open spec fn sorted_keys<K: IntKey>(s: Set<K>) -> Seq<K> {
    choose|q: Seq<K>| q.to_set() == s && increasing(q)
}

/// Two increasing sequences of the same keys are the same sequence.
pub proof fn lemma_increasing_unique<K: IntKey>(p: Seq<K>, q: Seq<K>)
    requires
        increasing(p),
        increasing(q),
        p.to_set() == q.to_set(),
    ensures
        p == q,
    decreases p.len(),
{
    K::lemma_key_order();
    if p.len() == 0 {
        if q.len() > 0 {
            assert(q.to_set().contains(q[0]));
        }
        assert(p =~= q);
    } else if q.len() == 0 {
        assert(p.to_set().contains(p[0]));
    } else {
        assert(q.to_set().contains(p[0]));
        assert(p.to_set().contains(q[0]));
        let i = choose|i: int| 0 <= i < p.len() && p[i] == q[0];
        let j = choose|j: int| 0 <= j < q.len() && q[j] == p[0];
        assert(p[0].key_val() == q[0].key_val());
        let pt = p.drop_first();
        let qt = q.drop_first();
        assert forall|x: K| pt.to_set().contains(x) implies qt.to_set().contains(x) by {
            let a = choose|a: int| 0 <= a < pt.len() && pt[a] == x;
            assert(p[a + 1] == x);
            assert(q.to_set().contains(x));
            let b = choose|b: int| 0 <= b < q.len() && q[b] == x;
            assert(b != 0);
            assert(qt[b - 1] == x);
        }
        assert forall|x: K| qt.to_set().contains(x) implies pt.to_set().contains(x) by {
            let a = choose|a: int| 0 <= a < qt.len() && qt[a] == x;
            assert(q[a + 1] == x);
            assert(p.to_set().contains(x));
            let b = choose|b: int| 0 <= b < p.len() && p[b] == x;
            assert(b != 0);
            assert(pt[b - 1] == x);
        }
        assert(pt.to_set() =~= qt.to_set());
        lemma_increasing_unique(pt, qt);
        assert(p =~= seq![p[0]] + pt);
        assert(q =~= seq![q[0]] + qt);
    }
}


/// In a sequence that increases by its type's order, an earlier item is less
/// than a later one.
proof fn lemma_ordered_pair<T: Ord>(s: Seq<T>, i: int, j: int)
    requires
        vstd::laws_cmp::obeys_cmp::<T>(),
        vstd::std_specs::btree::increasing_seq(s),
        0 <= i < j < s.len(),
    ensures
        s[i].cmp_spec(&s[j]) is Less,
{
    vstd::std_specs::btree::axiom_increasing_seq_meaning::<T>(s);
}

/// The keys of a set, in the order its iterator gives them, are its keys in
/// increasing order.
proof fn lemma_iter_sorted<K: IntKey>(m: &BTreeSet<K>)
    ensures
        spec_btree_keys_iter(m).remaining().unref() == sorted_keys(m@),
        sorted_keys(m@).len() == m@.len(),
{
    broadcast use vstd::std_specs::btree::group_btree_axioms;
    broadcast use vstd::laws_cmp::group_laws_cmp;
    K::lemma_key_order();
    let all = spec_btree_keys_iter(m).remaining();
    let keys = all.unref();
    broadcast use vstd::laws_cmp::lemma_ref_obeys_cmp_spec;
    assert(vstd::laws_cmp::obeys_cmp::<&K>());
    assert(vstd::std_specs::btree::increasing_seq(all));
    assert(increasing(keys)) by {
        assert forall|i: int, j: int| 0 <= i < j < keys.len() implies keys[i].key_val() < keys[j].key_val() by {
            lemma_ordered_pair(all, i, j);
        }
    }
    assert(keys.to_set() == m@);
    lemma_increasing_unique(keys, sorted_keys(m@));
}

impl<K: IntKey> Modeled for BTreeSet<K> {
    type Model = Set<K>;

    open spec fn model(&self) -> Set<K> {
        self@
    }
}

impl<K: IntKey> BitEncode for BTreeSet<K> {
    /// The number of keys as a `VarLen`, then the keys in increasing order.
    open spec fn spec_encode(m: Set<K>) -> Result<Seq<bool>, CodecError> {
        encode_counted::<K>(sorted_keys(m))
    }

    fn encode(&self, w: &mut BitWriter) -> (res: Result<(), CodecError>) {
        proof {
            broadcast use vstd::std_specs::btree::group_btree_axioms;
            K::lemma_key_order();
            lemma_iter_sorted(self);
        }
        let ghost ms = sorted_keys(self@);
        let ghost start = w.bits();
        VarLen(self.len() as u32).encode(w)?;
        let ghost mid = w.bits();
        proof {
            assert(ms.take(0) =~= Seq::<K>::empty());
            assert(mid + Seq::<bool>::empty() =~= mid);
        }
        for k in it: self.iter()
            invariant
                it.seq().unref() == ms,
                ms == sorted_keys(self@),
                it.seq().len() == ms.len(),
                start == old(w).bits(),
                start.is_prefix_of(mid),
                mid == start + varlen_bits(crate::seqs::len_header(ms.len())),
                encode_all::<K>(ms.take(it.index())) is Ok,
                w.bits() == mid + encode_all::<K>(ms.take(it.index()))->Ok_0,
        {
            let ghost i = it.index();
            proof {
                K::lemma_key_order();
                assert(*k == ms[i]);
            }
            let ghost before = w.bits();
            let r = k.encode(w);
            proof {
                assert(ms.take(i + 1) =~= ms.take(i).push(ms[i]));
                lemma_encode_all_push::<K>(ms.take(i), ms[i]);
            }
            match r {
                Ok(()) => {
                    proof {
                        let a = encode_all::<K>(ms.take(i))->Ok_0;
                        let b = K::spec_encode(ms[i])->Ok_0;
                        assert((mid + a) + b =~= mid + (a + b));
                    }
                },
                Err(e) => {
                    proof {
                        lemma_encode_all_error::<K>(ms, i);
                        assert(mid.is_prefix_of(before));
                        crate::enc::lemma_prefix_trans(start, mid, before);
                        crate::enc::lemma_prefix_trans(start, before, w.bits());
                    }
                    return Err(e);
                },
            }
        }
        proof {
            assert(ms.take(ms.len() as int) =~= ms);
        }
        proof {
            let b = encode_all::<K>(ms)->Ok_0;
            assert(mid + b =~= start + (varlen_bits(crate::seqs::len_header(ms.len())) + b));
        }
        Ok(())
    }
}


/// An integer is its own model, so a sequence of keys is its own models.
proof fn lemma_key_models<K: IntKey>(s: Seq<K>)
    ensures
        models(s) == s,
{
    K::lemma_key_order();
    assert(models(s) =~= s);
}

impl<K: IntKey> BitDecode for BTreeSet<K> {
    /// The number of keys as a `VarLen`, then the keys; a key read twice
    /// counts once.
    open spec fn spec_decode(bits: Seq<bool>) -> Result<(Set<K>, nat), CodecError> {
        match decode_counted::<K>(bits) {
            Ok((ms, k)) => Ok((ms.to_set(), k)),
            Err(e) => Err(e),
        }
    }

    fn decode(r: &mut BitReader) -> (res: Result<Self, CodecError>) {
        let keys: Vec<K> = Vec::<K>::decode(r)?;
        proof {
            lemma_key_models(keys@);
        }
        let mut set: BTreeSet<K> = BTreeSet::new();
        let mut i: usize = 0;
        proof {
            assert(keys@.take(0).to_set() =~= Set::<K>::empty());
        }
        while i < keys.len()
            invariant
                i <= keys@.len(),
                set@ == keys@.take(i as int).to_set(),
            decreases keys@.len() - i,
        {
            proof {
                K::lemma_key_order();
                assert(keys@.take(i + 1) =~= keys@.take(i as int).push(keys@[i as int]));
                keys@.take(i as int).lemma_push_to_set_commute(keys@[i as int]);
            }
            set.insert(keys[i]);
            i = i + 1;
        }
        proof {
            assert(keys@.take(keys@.len() as int) =~= keys@);
        }
        Ok(set)
    }
}

impl<K: IntKey + RoundTrip> RoundTrip for BTreeSet<K> {
    /// Fewer than `2^32` keys, each of which round-trips.
    open spec fn spec_round_trips(m: Set<K>) -> bool {
        &&& m.len() < 0x1_0000_0000
        &&& forall|k: K| m.contains(k) ==> K::spec_round_trips(k)
    }

    proof fn lemma_round_trip(x: &Self, rest: Seq<bool>) {
        broadcast use vstd::std_specs::btree::group_btree_axioms;
        lemma_iter_sorted(x);
        K::lemma_key_order();
        let ms = sorted_keys(x@);
        lemma_key_models(ms);
        assert forall|i: int| 0 <= i < ms.len() implies K::spec_round_trips(#[trigger] ms[i].model()) by {
            assert(ms.to_set().contains(ms[i]));
        }
        crate::seqs::lemma_counted_round_trip::<K>(ms, rest);
    }
}


/// The entries of a map in increasing order of their keys.
pub open spec fn sorted_entries<K: IntKey, M>(m: Map<K, M>) -> Seq<(K, M)> {
    sorted_keys(m.dom()).map_values(|k: K| (k, m[k]))
}

/// The map that inserting pairs in order builds: a later pair for a key
/// replaces an earlier one.
pub open spec fn pairs_map<K, M>(ps: Seq<(K, M)>) -> Map<K, M>
    decreases ps.len(),
{
    if ps.len() == 0 {
        Map::empty()
    } else {
        pairs_map(ps.drop_last()).insert(ps.last().0, ps.last().1)
    }
}

/// The models of a map's values, under the same keys.
pub open spec fn value_models<K, V: Modeled>(m: Map<K, V>) -> Map<K, V::Model> {
    m.map_values(|v: V| v.model())
}

/// The keys of the entries a sequence holds.
pub open spec fn entry_keys<K, V>(v: Seq<(&K, &V)>) -> Seq<K> {
    v.map_values(|kv: (&K, &V)| *kv.0)
}

/// The entries a map's iterator gives are its entries in increasing key order.
proof fn lemma_map_iter_sorted<K: IntKey, V>(m: &BTreeMap<K, V>, v: Seq<(&K, &V)>)
    requires
        v == spec_btree_map_iter(m).remaining(),
        increasing_seq(entry_keys(v)),
    ensures
        v.len() == sorted_keys(m@.dom()).len(),
        sorted_keys(m@.dom()).len() == m@.dom().len(),
        forall|i: int| 0 <= i < v.len() ==> *(#[trigger] v[i]).0 == sorted_keys(m@.dom())[i] && m@.contains_key(*v[i].0) && *v[i].1 == m@[*v[i].0],
{
    broadcast use vstd::std_specs::btree::group_btree_axioms;
    broadcast use vstd::laws_cmp::group_laws_cmp;
    K::lemma_key_order();
    let keys = entry_keys(v);
    assert(increasing(keys)) by {
        assert forall|i: int, j: int| 0 <= i < j < keys.len() implies keys[i].key_val() < keys[j].key_val() by {
            lemma_ordered_pair(keys, i, j);
        }
    }
    assert(keys.to_set() =~= m@.dom()) by {
        assert forall|k: K| keys.to_set().contains(k) implies m@.dom().contains(k) by {
            let i = choose|i: int| 0 <= i < keys.len() && keys[i] == k;
            assert(m@.contains_key(*v[i].0));
        }
        assert forall|k: K| m@.dom().contains(k) implies keys.to_set().contains(k) by {
            assert(v.contains((&k, &m@[k])));
            let i = choose|i: int| 0 <= i < v.len() && v[i] == (&k, &m@[k]);
            assert(keys[i] == k);
        }
    }
    lemma_increasing_unique(keys, sorted_keys(m@.dom()));
    keys.unique_seq_to_set();
    assert forall|i: int| 0 <= i < v.len() implies *(#[trigger] v[i]).0 == sorted_keys(m@.dom())[i] && m@.contains_key(*v[i].0) && *v[i].1 == m@[*v[i].0] by {
        assert(keys[i] == *v[i].0);
    }
}

impl<K: IntKey, V: Modeled> Modeled for BTreeMap<K, V> {
    type Model = Map<K, V::Model>;

    open spec fn model(&self) -> Map<K, V::Model> {
        value_models(self@)
    }
}

impl<K: IntKey, V: BitEncode> BitEncode for BTreeMap<K, V> {
    /// The number of entries as a `VarLen`, then each key and its value, in
    /// increasing key order.
    open spec fn spec_encode(m: Map<K, V::Model>) -> Result<Seq<bool>, CodecError> {
        encode_counted::<(K, V)>(sorted_entries(m))
    }

    fn encode(&self, w: &mut BitWriter) -> (res: Result<(), CodecError>) {
        proof {
            broadcast use vstd::std_specs::btree::group_btree_axioms;
            K::lemma_key_order();
        }
        let ghost mm = self.model();
        let ghost ms = sorted_entries(mm);
        let ghost start = w.bits();
        VarLen(self.len() as u32).encode(w)?;
        let ghost mid = w.bits();
        proof {
            assert(ms.take(0) =~= Seq::<(K, V::Model)>::empty());
            assert(mid + Seq::<bool>::empty() =~= mid);
            assert(mm.dom() =~= self@.dom());
        }
        for kv in it: self.iter()
            invariant
                it.seq() == spec_btree_map_iter(self).remaining(),
                increasing_seq(entry_keys(it.seq())),
                mm == self.model(),
                mm.dom() == self@.dom(),
                ms == sorted_entries(mm),
                start == old(w).bits(),
                start.is_prefix_of(mid),
                mid == start + varlen_bits(crate::seqs::len_header(self@.dom().len())),
                encode_all::<(K, V)>(ms.take(it.index())) is Ok,
                w.bits() == mid + encode_all::<(K, V)>(ms.take(it.index()))->Ok_0,
        {
            let ghost i = it.index();
            proof {
                K::lemma_key_order();
                lemma_map_iter_sorted(self, it.seq());
            }
            let (k, v) = kv;
            proof {
                assert(ms[i] == (*k, v.model()));
            }
            let ghost before = w.bits();
            let rk = k.encode(w);
            proof {
                assert(ms.take(i + 1) =~= ms.take(i).push(ms[i]));
                lemma_encode_all_push::<(K, V)>(ms.take(i), ms[i]);
            }
            match rk {
                Ok(()) => {},
                Err(e) => {
                    proof {
                        lemma_encode_all_error::<(K, V)>(ms, i);
                        assert(mid.is_prefix_of(before));
                        crate::enc::lemma_prefix_trans(start, mid, before);
                        crate::enc::lemma_prefix_trans(start, before, w.bits());
                    }
                    return Err(e);
                },
            }
            let ghost between = w.bits();
            let rv = v.encode(w);
            match rv {
                Ok(()) => {
                    proof {
                        let a = encode_all::<(K, V)>(ms.take(i))->Ok_0;
                        let b = K::spec_encode(*k)->Ok_0;
                        let c = V::spec_encode(v.model())->Ok_0;
                        assert(((mid + a) + b) + c =~= mid + (a + (b + c)));
                    }
                },
                Err(e) => {
                    proof {
                        lemma_encode_all_error::<(K, V)>(ms, i);
                        assert(mid.is_prefix_of(before));
                        crate::enc::lemma_prefix_trans(start, mid, before);
                        assert(before.is_prefix_of(between));
                        crate::enc::lemma_prefix_trans(start, before, between);
                        crate::enc::lemma_prefix_trans(start, between, w.bits());
                    }
                    return Err(e);
                },
            }
        }
        proof {
            lemma_map_iter_sorted(self, spec_btree_map_iter(self).remaining());
            assert(ms.take(ms.len() as int) =~= ms);
            let b = encode_all::<(K, V)>(ms)->Ok_0;
            assert(mid + b =~= start + (varlen_bits(crate::seqs::len_header(ms.len())) + b));
        }
        Ok(())
    }
}


impl<K: IntKey, V: BitDecode> BitDecode for BTreeMap<K, V> {
    /// The number of entries as a `VarLen`, then each key and its value; a
    /// later entry for a key replaces an earlier one.
    open spec fn spec_decode(bits: Seq<bool>) -> Result<(Map<K, V::Model>, nat), CodecError> {
        match decode_counted::<(K, V)>(bits) {
            Ok((ps, k)) => Ok((pairs_map(ps), k)),
            Err(e) => Err(e),
        }
    }

    fn decode(r: &mut BitReader) -> (res: Result<Self, CodecError>) {
        let ghost start = r.remaining();
        let n = VarLen::decode(r)?.0 as usize;
        let ghost mid = r.remaining();
        let mut out: BTreeMap<K, V> = BTreeMap::new();
        let ghost mut done: Seq<(K, V::Model)> = Seq::empty();
        let mut i: usize = 0;
        proof {
            assert(value_models(out@) =~= pairs_map(done));
            assert(mid.skip(0) =~= mid);
            match decode_n::<(K, V)>(mid, n as nat) {
                Ok((ms, k)) => {
                    assert(done + ms =~= ms);
                },
                Err(e) => {},
            }
        }
        while i < n
            invariant
                i <= n,
                start == old(r).remaining(),
                consumed_from(start, mid),
                consumed_from(mid, r.remaining()),
                value_models(out@) == pairs_map(done),
                <VarLen as BitDecode>::spec_decode(start) matches Ok((l, k)) && l as nat == n as nat && k
                    == start.len() - mid.len(),
                decode_n::<(K, V)>(mid, n as nat) == match decode_n::<(K, V)>(r.remaining(), (n - i) as nat) {
                    Ok((ms, k)) => Ok::<(Seq<(K, V::Model)>, nat), CodecError>(
                        (done + ms, ((mid.len() - r.remaining().len()) + k) as nat),
                    ),
                    Err(e) => Err(e),
                },
            decreases n - i,
        {
            let ghost here = r.remaining();
            match <(K, V)>::decode(r) {
                Ok(x) => {
                    proof {
                        K::lemma_key_order();
                        let k = <(K, V)>::spec_decode(here)->Ok_0.1;
                        assert(r.remaining() =~= mid.skip(mid.len() - r.remaining().len()));
                        let d2 = done.push(x.model());
                        assert(d2.drop_last() =~= done);
                        assert(value_models(out@.insert(x.0, x.1)) =~= pairs_map(done).insert(x.0, x.1.model()));
                        match decode_n::<(K, V)>(r.remaining(), (n - i - 1) as nat) {
                            Ok((ms, k2)) => {
                                assert(done + (seq![x.model()] + ms) =~= d2 + ms);
                            },
                            Err(e) => {},
                        }
                    }
                    let (key, value) = x;
                    out.insert(key, value);
                    proof {
                        done = done.push(x.model());
                    }
                },
                Err(e) => {
                    proof {
                        assert(r.remaining() =~= start.skip(start.len() - r.remaining().len()));
                    }
                    return Err(e);
                },
            }
            i = i + 1;
        }
        proof {
            assert(done + Seq::<(K, V::Model)>::empty() =~= done);
            assert(r.remaining() =~= start.skip(start.len() - r.remaining().len()));
        }
        Ok(out)
    }
}


/// A map's keys, listed by its key iterator, are its keys in increasing
/// order, so that list exists and has one item per key.
proof fn lemma_map_keys_sorted<K: IntKey, V>(m: &BTreeMap<K, V>)
    ensures
        sorted_keys(m@.dom()).to_set() == m@.dom(),
        increasing(sorted_keys(m@.dom())),
        sorted_keys(m@.dom()).len() == m@.dom().len(),
{
    broadcast use vstd::std_specs::btree::group_btree_axioms;
    broadcast use vstd::laws_cmp::group_laws_cmp;
    K::lemma_key_order();
    let all = spec_keys_iter(m).remaining();
    let keys = all.unref();
    broadcast use vstd::laws_cmp::lemma_ref_obeys_cmp_spec;
    assert(vstd::laws_cmp::obeys_cmp::<&K>());
    assert(increasing(keys)) by {
        assert forall|i: int, j: int| 0 <= i < j < keys.len() implies keys[i].key_val() < keys[j].key_val() by {
            lemma_ordered_pair(all, i, j);
        }
    }
    assert(keys.to_set() == m@.dom());
    lemma_increasing_unique(keys, sorted_keys(m@.dom()));
}

/// Inserting pairs with distinct keys gives a map from each key to its value.
proof fn lemma_pairs_map_distinct<K, M>(ps: Seq<(K, M)>)
    requires
        forall|i: int, j: int| 0 <= i < j < ps.len() ==> ps[i].0 != ps[j].0,
    ensures
        forall|k: K| pairs_map(ps).contains_key(k) <==> exists|i: int| 0 <= i < ps.len() && ps[i].0 == k,
        forall|i: int| 0 <= i < ps.len() ==> pairs_map(ps)[#[trigger] ps[i].0] == ps[i].1,
    decreases ps.len(),
{
    if ps.len() > 0 {
        let init = ps.drop_last();
        lemma_pairs_map_distinct(init);
        assert forall|k: K| pairs_map(ps).contains_key(k) <==> exists|i: int| 0 <= i < ps.len() && ps[i].0 == k by {
            assert(pairs_map(ps) == pairs_map(init).insert(ps.last().0, ps.last().1));
            if pairs_map(ps).contains_key(k) && k != ps.last().0 {
                assert(pairs_map(init).contains_key(k));
                let i = choose|i: int| 0 <= i < init.len() && init[i].0 == k;
                assert(ps[i].0 == k);
            }
            if exists|i: int| 0 <= i < ps.len() && ps[i].0 == k {
                let i = choose|i: int| 0 <= i < ps.len() && ps[i].0 == k;
                if i < ps.len() - 1 {
                    assert(init[i].0 == k);
                }
            }
        }
        assert forall|i: int| 0 <= i < ps.len() implies pairs_map(ps)[#[trigger] ps[i].0] == ps[i].1 by {
            assert(pairs_map(ps) == pairs_map(init).insert(ps.last().0, ps.last().1));
            if i < ps.len() - 1 {
                assert(init[i] == ps[i]);
                assert(ps[i].0 != ps.last().0);
            }
        }
    }
}

/// Inserting a map's entries in increasing key order rebuilds the map.
proof fn lemma_pairs_map_sorted<K: IntKey, M>(m: Map<K, M>)
    requires
        sorted_keys(m.dom()).to_set() == m.dom(),
        increasing(sorted_keys(m.dom())),
    ensures
        pairs_map(sorted_entries(m)) == m,
{
    let keys = sorted_keys(m.dom());
    let ps = sorted_entries(m);
    assert forall|i: int, j: int| 0 <= i < j < ps.len() implies ps[i].0 != ps[j].0 by {
        assert(keys[i].key_val() < keys[j].key_val());
    }
    lemma_pairs_map_distinct(ps);
    assert forall|k: K| #[trigger] pairs_map(ps).contains_key(k) <==> m.contains_key(k) by {
        if m.contains_key(k) {
            assert(keys.to_set().contains(k));
            let i = choose|i: int| 0 <= i < keys.len() && keys[i] == k;
            assert(ps[i].0 == k);
        }
        if pairs_map(ps).contains_key(k) {
            let i = choose|i: int| 0 <= i < ps.len() && ps[i].0 == k;
            assert(keys[i] == k);
            assert(keys.to_set().contains(keys[i]));
        }
    }
    assert forall|k: K| #[trigger] m.contains_key(k) implies pairs_map(ps)[k] == m[k] by {
        assert(keys.to_set().contains(k));
        let i = choose|i: int| 0 <= i < keys.len() && keys[i] == k;
        assert(ps[i].0 == k);
    }
    assert(pairs_map(ps) =~= m);
}

impl<K: IntKey + RoundTrip, V: RoundTrip> RoundTrip for BTreeMap<K, V> {
    /// Fewer than `2^32` entries, each of whose keys and values round-trips.
    open spec fn spec_round_trips(m: Map<K, V::Model>) -> bool {
        &&& m.dom().len() < 0x1_0000_0000
        &&& forall|k: K| m.contains_key(k) ==> K::spec_round_trips(k) && V::spec_round_trips(#[trigger] m[k])
    }

    proof fn lemma_round_trip(x: &Self, rest: Seq<bool>) {
        K::lemma_key_order();
        lemma_map_keys_sorted(x);
        let mm = x.model();
        assert(mm.dom() =~= x@.dom());
        let keys = sorted_keys(x@.dom());
        let xs = keys.map_values(|k: K| (k, x@[k]));
        assert(models(xs) =~= sorted_entries(mm));
        assert forall|i: int| 0 <= i < xs.len() implies <(K, V)>::spec_round_trips(#[trigger] xs[i].model()) by {
            assert(keys.to_set().contains(keys[i]));
            assert(mm.contains_key(keys[i]));
            assert(mm[keys[i]] == x@[keys[i]].model());
            assert(xs[i].model() == (keys[i], mm[keys[i]]));
        }
        crate::seqs::lemma_counted_round_trip::<(K, V)>(xs, rest);
        lemma_pairs_map_sorted(mm);
    }
}


/// A finite non-empty set of keys has a least key.
proof fn lemma_least_key<K: IntKey>(s: Set<K>) -> (m: K)
    requires
        s.finite(),
        s.len() > 0,
    ensures
        s.contains(m),
        forall|x: K| s.contains(x) ==> m.key_val() <= x.key_val(),
    decreases s.len(),
{
    let a = s.choose();
    if s.len() == 1 {
        assert forall|x: K| s.contains(x) implies a.key_val() <= x.key_val() by {
            if x != a {
                assert(s.remove(a).contains(x));
                assert(s.remove(a).len() == 0);
            }
        }
        a
    } else {
        let b = lemma_least_key(s.remove(a));
        if a.key_val() < b.key_val() {
            a
        } else {
            b
        }
    }
}

/// Every finite set of keys can be listed in increasing order.
pub proof fn lemma_sorted_keys_exist<K: IntKey>(s: Set<K>)
    requires
        s.finite(),
    ensures
        sorted_keys(s).to_set() == s,
        increasing(sorted_keys(s)),
        sorted_keys(s).len() == s.len(),
    decreases s.len(),
{
    K::lemma_key_order();
    if s.len() == 0 {
        let q = Seq::<K>::empty();
        assert(q.to_set() =~= s);
        assert(increasing(q));
    } else {
        let m = lemma_least_key(s);
        let rest = s.remove(m);
        lemma_sorted_keys_exist(rest);
        let t = sorted_keys(rest);
        let q = seq![m] + t;
        assert forall|x: K| q.to_set().contains(x) <==> s.contains(x) by {
            assert(q[0] == m);
            if s.contains(x) && x != m {
                assert(t.to_set().contains(x));
                let i = choose|i: int| 0 <= i < t.len() && t[i] == x;
                assert(q[i + 1] == x);
            }
            if q.to_set().contains(x) {
                let i = choose|i: int| 0 <= i < q.len() && q[i] == x;
                if i > 0 {
                    assert(t[i - 1] == x);
                    assert(t.to_set().contains(x));
                    assert(rest.contains(x));
                }
            }
        }
        assert(q.to_set() =~= s);
        assert forall|i: int, j: int| 0 <= i < j < q.len() implies q[i].key_val() < q[j].key_val() by {
            if i == 0 {
                assert(q[j] == t[j - 1]);
                assert(t.to_set().contains(t[j - 1]));
                assert(q[j] != m);
            } else {
                assert(q[i] == t[i - 1] && q[j] == t[j - 1]);
            }
        }
    }
    let r = sorted_keys(s);
    r.unique_seq_to_set();
}


impl<K: IntKey> Modeled for HashSet<K> {
    type Model = Set<K>;

    open spec fn model(&self) -> Set<K> {
        self@
    }
}

impl<K: IntKey> BitEncode for HashSet<K> {
    /// The number of keys as a `VarLen`, then the keys in increasing order.
    open spec fn spec_encode(m: Set<K>) -> Result<Seq<bool>, CodecError> {
        encode_counted::<K>(sorted_keys(m))
    }

    fn encode(&self, w: &mut BitWriter) -> (res: Result<(), CodecError>) {
        proof {
            broadcast use vstd::std_specs::hash::group_hash_axioms;
            K::lemma_key_order();
        }
        let mut ordered: BTreeSet<K> = BTreeSet::new();
        for k in it: self.iter()
            invariant
                it.seq() == vstd::std_specs::hash::spec_hash_keys_iter(self).remaining(),
                ordered@ == it.seq().unref().take(it.index()).to_set(),
        {
            proof {
                K::lemma_key_order();
                let i = it.index();
                assert(it.seq().unref().take(i + 1) =~= it.seq().unref().take(i).push(*k));
                it.seq().unref().take(i).lemma_push_to_set_commute(*k);
            }
            ordered.insert(*k);
        }
        proof {
            broadcast use vstd::std_specs::hash::group_hash_axioms;
            let all = vstd::std_specs::hash::spec_hash_keys_iter(self).remaining().unref();
            assert(all.take(all.len() as int) =~= all);
        }
        ordered.encode(w)
    }
}

impl<K: IntKey> BitDecode for HashSet<K> {
    /// The number of keys as a `VarLen`, then the keys; a key read twice
    /// counts once.
    open spec fn spec_decode(bits: Seq<bool>) -> Result<(Set<K>, nat), CodecError> {
        match decode_counted::<K>(bits) {
            Ok((ms, k)) => Ok((ms.to_set(), k)),
            Err(e) => Err(e),
        }
    }

    fn decode(r: &mut BitReader) -> (res: Result<Self, CodecError>) {
        let keys: Vec<K> = Vec::<K>::decode(r)?;
        proof {
            lemma_key_models(keys@);
        }
        let mut set: HashSet<K> = HashSet::new();
        let mut i: usize = 0;
        proof {
            assert(keys@.take(0).to_set() =~= Set::<K>::empty());
        }
        while i < keys.len()
            invariant
                i <= keys@.len(),
                set@ == keys@.take(i as int).to_set(),
            decreases keys@.len() - i,
        {
            proof {
                broadcast use vstd::std_specs::hash::group_hash_axioms;
                K::lemma_key_order();
                assert(keys@.take(i + 1) =~= keys@.take(i as int).push(keys@[i as int]));
                keys@.take(i as int).lemma_push_to_set_commute(keys@[i as int]);
            }
            set.insert(keys[i]);
            i = i + 1;
        }
        proof {
            assert(keys@.take(keys@.len() as int) =~= keys@);
        }
        Ok(set)
    }
}

impl<K: IntKey + RoundTrip> RoundTrip for HashSet<K> {
    /// Fewer than `2^32` keys, each of which round-trips.
    open spec fn spec_round_trips(m: Set<K>) -> bool {
        &&& m.len() < 0x1_0000_0000
        &&& forall|k: K| m.contains(k) ==> K::spec_round_trips(k)
    }

    proof fn lemma_round_trip(x: &Self, rest: Seq<bool>) {
        broadcast use vstd::std_specs::hash::group_hash_axioms;
        K::lemma_key_order();
        let listed = vstd::std_specs::hash::spec_hash_keys_iter(x).remaining().unref();
        vstd::seq_lib::seq_to_set_is_finite(listed);
        assert(x@.finite());
        lemma_sorted_keys_exist(x@);
        let ms = sorted_keys(x@);
        lemma_key_models(ms);
        assert forall|i: int| 0 <= i < ms.len() implies K::spec_round_trips(#[trigger] ms[i].model()) by {
            assert(ms.to_set().contains(ms[i]));
        }
        crate::seqs::lemma_counted_round_trip::<K>(ms, rest);
    }
}


/// An entry whose value is held by reference is written as one whose value
/// is held directly.
proof fn lemma_encode_all_ref<'a, K: IntKey, V: BitEncode>(ms: Seq<(K, V::Model)>)
    ensures
        encode_all::<(K, &'a V)>(ms) == encode_all::<(K, V)>(ms),
    decreases ms.len(),
{
    if ms.len() > 0 {
        lemma_encode_all_ref::<K, V>(ms.drop_first());
    }
}

impl<K: IntKey, V: Modeled> Modeled for HashMap<K, V> {
    type Model = Map<K, V::Model>;

    open spec fn model(&self) -> Map<K, V::Model> {
        value_models(self@)
    }
}

impl<K: IntKey, V: BitEncode> BitEncode for HashMap<K, V> {
    /// The number of entries as a `VarLen`, then each key and its value, in
    /// increasing key order.
    open spec fn spec_encode(m: Map<K, V::Model>) -> Result<Seq<bool>, CodecError> {
        encode_counted::<(K, V)>(sorted_entries(m))
    }

    fn encode(&self, w: &mut BitWriter) -> (res: Result<(), CodecError>) {
        proof {
            broadcast use vstd::std_specs::hash::group_hash_axioms;
            K::lemma_key_order();
        }
        let mut ordered: BTreeMap<K, &V> = BTreeMap::new();
        for kv in it: self.iter()
            invariant
                it.seq() == vstd::std_specs::hash::spec_hash_map_iter(self).remaining(),
                forall|k: K| #[trigger] ordered@.contains_key(k) ==> self@.contains_key(k) && *ordered@[k] == self@[k],
                forall|j: int| 0 <= j < it.index() ==> #[trigger] ordered@.contains_key(*it.seq()[j].0),
        {
            proof {
                broadcast use vstd::std_specs::hash::group_hash_axioms;
                K::lemma_key_order();
            }
            let (k, v) = kv;
            ordered.insert(*k, v);
        }
        proof {
            broadcast use vstd::std_specs::hash::group_hash_axioms;
            let all = vstd::std_specs::hash::spec_hash_map_iter(self).remaining();
            assert forall|k: K| #[trigger] self@.contains_key(k) implies ordered@.contains_key(k) by {
                assert(all.contains((&k, &self@[k])));
                let j = choose|j: int| 0 <= j < all.len() && all[j] == (&k, &self@[k]);
                assert(ordered@.contains_key(*all[j].0));
            }
            assert(ordered@.dom() =~= self@.dom());
            assert(value_models(ordered@) =~= value_models(self@));
            lemma_encode_all_ref::<K, V>(sorted_entries(self.model()));
        }
        ordered.encode(w)
    }
}

impl<K: IntKey, V: BitDecode> BitDecode for HashMap<K, V> {
    /// The number of entries as a `VarLen`, then each key and its value; a
    /// later entry for a key replaces an earlier one.
    open spec fn spec_decode(bits: Seq<bool>) -> Result<(Map<K, V::Model>, nat), CodecError> {
        match decode_counted::<(K, V)>(bits) {
            Ok((ps, k)) => Ok((pairs_map(ps), k)),
            Err(e) => Err(e),
        }
    }

    fn decode(r: &mut BitReader) -> (res: Result<Self, CodecError>) {
        let ghost start = r.remaining();
        let n = VarLen::decode(r)?.0 as usize;
        let ghost mid = r.remaining();
        let mut out: HashMap<K, V> = HashMap::new();
        let ghost mut done: Seq<(K, V::Model)> = Seq::empty();
        let mut i: usize = 0;
        proof {
            assert(value_models(out@) =~= pairs_map(done));
            assert(mid.skip(0) =~= mid);
            match decode_n::<(K, V)>(mid, n as nat) {
                Ok((ms, k)) => {
                    assert(done + ms =~= ms);
                },
                Err(e) => {},
            }
        }
        while i < n
            invariant
                i <= n,
                start == old(r).remaining(),
                consumed_from(start, mid),
                consumed_from(mid, r.remaining()),
                value_models(out@) == pairs_map(done),
                <VarLen as BitDecode>::spec_decode(start) matches Ok((l, k)) && l as nat == n as nat && k
                    == start.len() - mid.len(),
                decode_n::<(K, V)>(mid, n as nat) == match decode_n::<(K, V)>(r.remaining(), (n - i) as nat) {
                    Ok((ms, k)) => Ok::<(Seq<(K, V::Model)>, nat), CodecError>(
                        (done + ms, ((mid.len() - r.remaining().len()) + k) as nat),
                    ),
                    Err(e) => Err(e),
                },
            decreases n - i,
        {
            let ghost here = r.remaining();
            match <(K, V)>::decode(r) {
                Ok(x) => {
                    proof {
                        broadcast use vstd::std_specs::hash::group_hash_axioms;
                        K::lemma_key_order();
                        let k = <(K, V)>::spec_decode(here)->Ok_0.1;
                        assert(r.remaining() =~= mid.skip(mid.len() - r.remaining().len()));
                        let d2 = done.push(x.model());
                        assert(d2.drop_last() =~= done);
                        assert(value_models(out@.insert(x.0, x.1)) =~= pairs_map(done).insert(x.0, x.1.model()));
                        match decode_n::<(K, V)>(r.remaining(), (n - i - 1) as nat) {
                            Ok((ms, k2)) => {
                                assert(done + (seq![x.model()] + ms) =~= d2 + ms);
                            },
                            Err(e) => {},
                        }
                    }
                    let (key, value) = x;
                    out.insert(key, value);
                    proof {
                        done = done.push(x.model());
                    }
                },
                Err(e) => {
                    proof {
                        assert(r.remaining() =~= start.skip(start.len() - r.remaining().len()));
                    }
                    return Err(e);
                },
            }
            i = i + 1;
        }
        proof {
            assert(done + Seq::<(K, V::Model)>::empty() =~= done);
            assert(r.remaining() =~= start.skip(start.len() - r.remaining().len()));
        }
        Ok(out)
    }
}

impl<K: IntKey + RoundTrip, V: RoundTrip> RoundTrip for HashMap<K, V> {
    /// Fewer than `2^32` entries, each of whose keys and values round-trips.
    open spec fn spec_round_trips(m: Map<K, V::Model>) -> bool {
        &&& m.dom().len() < 0x1_0000_0000
        &&& forall|k: K| m.contains_key(k) ==> K::spec_round_trips(k) && V::spec_round_trips(#[trigger] m[k])
    }

    proof fn lemma_round_trip(x: &Self, rest: Seq<bool>) {
        broadcast use vstd::std_specs::hash::group_hash_axioms;
        K::lemma_key_order();
        assert(x@.dom().finite());
        lemma_sorted_keys_exist(x@.dom());
        let mm = x.model();
        assert(mm.dom() =~= x@.dom());
        let keys = sorted_keys(x@.dom());
        let xs = keys.map_values(|k: K| (k, x@[k]));
        assert(models(xs) =~= sorted_entries(mm));
        assert forall|i: int| 0 <= i < xs.len() implies <(K, V)>::spec_round_trips(#[trigger] xs[i].model()) by {
            assert(keys.to_set().contains(keys[i]));
            assert(mm.contains_key(keys[i]));
            assert(mm[keys[i]] == x@[keys[i]].model());
            assert(xs[i].model() == (keys[i], mm[keys[i]]));
        }
        crate::seqs::lemma_counted_round_trip::<(K, V)>(xs, rest);
        lemma_pairs_map_sorted(mm);
    }
}

} // verus!
