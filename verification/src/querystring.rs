//! A permissive decoder and canonical encoder for `key=value&...` query
//! strings over raw bytes.

use vstd::prelude::*;

verus! {

/// Lexicographic byte order on sequences: `a` sorts strictly before `b`.
pub open spec fn lex_lt(a: Seq<u8>, b: Seq<u8>) -> bool
    decreases a.len(),
{
    if b.len() == 0 {
        false
    } else if a.len() == 0 {
        true
    } else if a[0] < b[0] {
        true
    } else if a[0] > b[0] {
        false
    } else {
        lex_lt(a.skip(1), b.skip(1))
    }
}

/// Keys in strictly increasing lexicographic order.
pub open spec fn entries_sorted(es: Seq<(Seq<u8>, Seq<u8>)>) -> bool {
    forall|i: int, j: int|
        0 <= i < j < es.len() ==> lex_lt((#[trigger] es[i]).0, (#[trigger] es[j]).0)
}

/// True when some entry holds the key `k`.
pub open spec fn has_key(es: Seq<(Seq<u8>, Seq<u8>)>, k: Seq<u8>) -> bool {
    exists|i: int| 0 <= i < es.len() && (#[trigger] es[i]).0 == k
}

/// The mapping held by a sequence of key/value entries with pairwise
/// distinct keys.
pub open spec fn kv_map(es: Seq<(Seq<u8>, Seq<u8>)>) -> Map<Seq<u8>, Seq<u8>> {
    Map::new(
        |k: Seq<u8>| has_key(es, k),
        |k: Seq<u8>| es[choose|i: int| 0 <= i < es.len() && (#[trigger] es[i]).0 == k].1,
    )
}

/// The index of the first occurrence of `c` in `s`, or `s.len()` if `c` does
/// not occur.
pub open spec fn find_byte(s: Seq<u8>, c: u8) -> int
    decreases s.len(),
{
    if s.len() == 0 {
        0
    } else if s[0] == c {
        0
    } else {
        1 + find_byte(s.skip(1), c)
    }
}

/// The key/value entry of one component: the bytes before the first `=`, and
/// the bytes after it (the empty sequence when there is no `=`).
pub open spec fn component_entry(comp: Seq<u8>) -> (Seq<u8>, Seq<u8>) {
    let eq = find_byte(comp, 0x3D);
    if eq == comp.len() {
        (comp, Seq::empty())
    } else {
        (comp.take(eq), comp.skip(eq + 1))
    }
}

/// The mapping a raw query string decodes to: the input splits into
/// components on `&`, each component splits at its first `=`, components with
/// empty keys are dropped, and on a repeated key the later occurrence wins.
pub open spec fn qs_decode_spec(s: Seq<u8>) -> Map<Seq<u8>, Seq<u8>>
    decreases s.len(),
    via qs_decode_spec_dec
{
    if s.len() == 0 {
        Map::empty()
    } else {
        let amp = find_byte(s, 0x26);
        let e = component_entry(s.take(amp));
        let m = if e.0.len() == 0 {
            Map::<Seq<u8>, Seq<u8>>::empty()
        } else {
            Map::<Seq<u8>, Seq<u8>>::empty().insert(e.0, e.1)
        };
        let rest = if amp == s.len() {
            Map::<Seq<u8>, Seq<u8>>::empty()
        } else {
            qs_decode_spec(s.skip(amp + 1))
        };
        m.union_prefer_right(rest)
    }
}

#[via_fn]
proof fn qs_decode_spec_dec(s: Seq<u8>) {
    lemma_find_byte_bounds(s, 0x26);
}

/// One serialized component: the key, then `=` and the value when the value
/// is non-empty.
pub open spec fn component_of(e: (Seq<u8>, Seq<u8>)) -> Seq<u8> {
    if e.1.len() == 0 {
        e.0
    } else {
        e.0 + seq![0x3Du8] + e.1
    }
}

/// The serialization of a sequence of entries, joined by single `&` bytes
/// with no leading or trailing `&`.
pub open spec fn qs_encode_spec(es: Seq<(Seq<u8>, Seq<u8>)>) -> Seq<u8>
    decreases es.len(),
{
    if es.len() == 0 {
        Seq::empty()
    } else if es.len() == 1 {
        component_of(es[0])
    } else {
        component_of(es[0]) + seq![0x26u8] + qs_encode_spec(es.skip(1))
    }
}

/// The mapping built from key/value pairs taken in order, later occurrences
/// of a key winning; pairs with empty keys are dropped.
pub open spec fn pairs_map(ps: Seq<(Seq<u8>, Seq<u8>)>) -> Map<Seq<u8>, Seq<u8>>
    decreases ps.len(),
{
    if ps.len() == 0 {
        Map::empty()
    } else {
        let m = pairs_map(ps.drop_last());
        if ps.last().0.len() == 0 {
            m
        } else {
            m.insert(ps.last().0, ps.last().1)
        }
    }
}

/// An entry as `decode` produces it: a non-empty key free of `&` and `=`,
/// and a value free of `&`.
pub open spec fn entry_clean(e: (Seq<u8>, Seq<u8>)) -> bool {
    &&& e.0.len() > 0
    &&& !e.0.contains(0x26u8)
    &&& !e.0.contains(0x3Du8)
    &&& !e.1.contains(0x26u8)
}

/// An ordered mapping from raw byte keys to raw byte values.
///
/// Keys are unique (last write wins) and never empty; entries are kept in
/// lexicographic byte order of their keys, so that encoding is deterministic
/// and independent of insertion order.
#[derive(Debug, Clone)]
pub struct QueryString {
    /// The key/value fields, strictly sorted by key.
    fields: Vec<(Vec<u8>, Vec<u8>)>,
}

impl View for QueryString {
    type V = Map<Seq<u8>, Seq<u8>>;

    closed spec fn view(&self) -> Map<Seq<u8>, Seq<u8>> {
        kv_map(self.entries())
    }
}

impl QueryString {
    /// The key/value entries, in strictly increasing key order.
    pub closed spec fn entries(&self) -> Seq<(Seq<u8>, Seq<u8>)> {
        self.fields@.map_values(|p: (Vec<u8>, Vec<u8>)| (p.0@, p.1@))
    }

    /// Well-formed: keys strictly sorted lexicographically, and non-empty.
    pub open spec fn wf(&self) -> bool {
        &&& entries_sorted(self.entries())
        &&& forall|i: int| 0 <= i < self.entries().len() ==> (#[trigger] self.entries()[i]).0.len() > 0
    }

    /// Creates an empty query string.
    pub fn new() -> (r: Self)
        ensures
            r@ == Map::<Seq<u8>, Seq<u8>>::empty(),
            r.wf(),
            r.entries() == Seq::<(Seq<u8>, Seq<u8>)>::empty(),
    {
        let r = Self { fields: Vec::new() };
        proof {
            assert(r.entries() =~= Seq::<(Seq<u8>, Seq<u8>)>::empty());
            assert(r@ =~= Map::<Seq<u8>, Seq<u8>>::empty());
        }
        r
    }

    /// Decodes a query string. Never fails: any input, however malformed by
    /// stricter grammars, yields some mapping, possibly empty.
    pub fn decode(source: &[u8]) -> (r: Self)
        ensures
            r@ == qs_decode_spec(source@),
            r.wf(),
            forall|j: int| 0 <= j < r.entries().len() ==> entry_clean(#[trigger] r.entries()[j]),
    {
        let len = source.len();
        let mut result = Self::new();
        let mut i: usize = 0;
        proof {
            assert(source@.skip(0) =~= source@);
            assert(result@.union_prefer_right(qs_decode_spec(source@)) =~= qs_decode_spec(
                source@,
            ));
        }
        while i < len
            invariant
                i <= len,
                len == source@.len(),
                result.wf(),
                forall|j: int|
                    0 <= j < result.entries().len() ==> entry_clean(
                        #[trigger] result.entries()[j],
                    ),
                result@.union_prefer_right(qs_decode_spec(source@.skip(i as int)))
                    == qs_decode_spec(source@),
            decreases len - i,
        {
            // The current component reaches to the next '&', or to the end.
            let mut amp = i;
            while amp < len && source[amp] != 0x26
                invariant
                    i <= amp <= len,
                    len == source@.len(),
                    forall|j: int| i <= j < amp ==> source@[j] != 0x26,
                decreases len - amp,
            {
                amp = amp + 1;
            }
            // The key reaches to the first '=' of the component, or to its end.
            let mut eq = i;
            while eq < amp && source[eq] != 0x3D
                invariant
                    i <= eq <= amp <= len,
                    len == source@.len(),
                    forall|j: int| i <= j < eq ==> source@[j] != 0x3D,
                decreases amp - eq,
            {
                eq = eq + 1;
            }
            let key = copy_range(source, i, eq);
            let value = if eq < amp {
                copy_range(source, eq + 1, amp)
            } else {
                Vec::new()
            };
            proof {
                let t = source@.skip(i as int);
                assert forall|j: int| 0 <= j < amp - i implies t[j] != 0x26 by {
                    assert(t[j] == source@[j + i]);
                }
                if amp < len {
                    assert(t[amp - i] == source@[amp as int]);
                }
                lemma_find_byte_is(t, 0x26, amp - i);
                let comp = t.take(amp - i);
                assert(comp =~= source@.subrange(i as int, amp as int));
                assert forall|j: int| 0 <= j < eq - i implies comp[j] != 0x3D by {
                    assert(comp[j] == source@[j + i]);
                }
                if eq < amp {
                    assert(comp[eq - i] == source@[eq as int]);
                }
                lemma_find_byte_is(comp, 0x3D, eq - i);
                let e = component_entry(comp);
                assert(key@ =~= e.0);
                if eq < amp {
                    assert(value@ =~= comp.skip(eq - i + 1));
                    assert(value@ =~= e.1);
                } else {
                    assert(value@ =~= e.1);
                }
            }
            let ghost old_result = result;
            let ghost t = source@.skip(i as int);
            let ghost e = component_entry(t.take(amp - i));
            let ghost key_view = key@;
            let ghost value_view = value@;
            if key.len() > 0 {
                proof {
                    // The key lies before the component's '=' and '&', the
                    // value before its '&': neither byte occurs in them.
                    assert forall|j: int| 0 <= j < key_view.len() implies key_view[j] != 0x26
                        && key_view[j] != 0x3D by {
                        assert(key_view[j] == source@[j + i]);
                    }
                    assert forall|j: int| 0 <= j < value_view.len() implies value_view[j]
                        != 0x26 by {
                        assert(value_view[j] == source@[j + eq + 1]);
                    }
                    assert(!key_view.contains(0x26u8) && !key_view.contains(0x3Du8)
                        && !value_view.contains(0x26u8));
                    assert(entry_clean((key_view, value_view)));
                }
                result.set(key, value);
                proof {
                    assert(result@ =~= old_result@.union_prefer_right(
                        Map::<Seq<u8>, Seq<u8>>::empty().insert(key_view, value_view),
                    ));
                    assert forall|j: int| 0 <= j < result.entries().len() implies entry_clean(
                        #[trigger] result.entries()[j],
                    ) by {
                        if result.entries()[j] != (key_view, value_view) {
                            assert(old_result.entries().contains(result.entries()[j]));
                            let j2 = choose|j2: int|
                                0 <= j2 < old_result.entries().len() && old_result.entries()[j2]
                                    == result.entries()[j];
                            assert(entry_clean(old_result.entries()[j2]));
                        }
                    }
                }
            } else {
                proof {
                    assert(result@ =~= old_result@.union_prefer_right(
                        Map::<Seq<u8>, Seq<u8>>::empty(),
                    ));
                }
            }
            proof {
                let amp_rel = amp - i;
                let m = if e.0.len() == 0 {
                    Map::<Seq<u8>, Seq<u8>>::empty()
                } else {
                    Map::<Seq<u8>, Seq<u8>>::empty().insert(e.0, e.1)
                };
                let rest = if amp_rel == t.len() {
                    Map::<Seq<u8>, Seq<u8>>::empty()
                } else {
                    qs_decode_spec(t.skip(amp_rel + 1))
                };
                assert(qs_decode_spec(t) == m.union_prefer_right(rest));
                assert(result@ =~= old_result@.union_prefer_right(m));
                assert(result@.union_prefer_right(rest) =~= old_result@.union_prefer_right(
                    qs_decode_spec(t),
                ));
                if amp < len {
                    assert(t.skip(amp_rel + 1) =~= source@.skip(amp + 1));
                } else {
                    assert(source@.skip(len as int) =~= Seq::<u8>::empty());
                    assert(qs_decode_spec(source@.skip(len as int)) =~= Map::<
                        Seq<u8>,
                        Seq<u8>,
                    >::empty());
                }
            }
            i = if amp < len {
                amp + 1
            } else {
                len
            };
        }
        proof {
            assert(source@.skip(len as int) =~= Seq::<u8>::empty());
            assert(result@.union_prefer_right(Map::<Seq<u8>, Seq<u8>>::empty()) =~= result@);
        }
        result
    }

    /// Encodes the query string: one component per entry, visited in key
    /// order, joined by single `&` bytes. A stored empty value serializes as
    /// a bare key with no `=`. Always succeeds.
    pub fn encode(&self) -> (r: Vec<u8>)
        requires
            self.wf(),
        ensures
            r@ == qs_encode_spec(self.entries()),
    {
        let n = self.fields.len();
        let mut serialized: Vec<u8> = Vec::new();
        let mut i: usize = 0;
        proof {
            assert(self.entries().take(0) =~= Seq::<(Seq<u8>, Seq<u8>)>::empty());
        }
        while i < n
            invariant
                i <= n,
                n == self.fields@.len(),
                serialized@ == qs_encode_spec(self.entries().take(i as int)),
            decreases n - i,
        {
            let ghost old_ser = serialized@;
            if i > 0 {
                serialized.push(0x26);
            }
            let entry = &self.fields[i];
            push_bytes(&mut serialized, entry.0.as_slice());
            if entry.1.len() > 0 {
                serialized.push(0x3D);
                push_bytes(&mut serialized, entry.1.as_slice());
            }
            proof {
                let es = self.entries();
                let e = es[i as int];
                lemma_qs_encode_snoc(es.take(i as int), e);
                assert(es.take(i as int).push(e) =~= es.take(i + 1));
                if e.1.len() == 0 {
                    if i == 0 {
                        assert(serialized@ =~= component_of(e));
                    } else {
                        assert(serialized@ =~= (old_ser + seq![0x26u8]) + e.0);
                        assert((old_ser + seq![0x26u8]) + e.0 =~= old_ser + seq![0x26u8]
                            + component_of(e));
                    }
                } else {
                    if i == 0 {
                        assert(serialized@ =~= (e.0 + seq![0x3Du8]) + e.1);
                        assert((e.0 + seq![0x3Du8]) + e.1 =~= component_of(e));
                    } else {
                        assert(serialized@ =~= (((old_ser + seq![0x26u8]) + e.0) + seq![0x3Du8])
                            + e.1);
                        assert((((old_ser + seq![0x26u8]) + e.0) + seq![0x3Du8]) + e.1 =~= old_ser
                            + seq![0x26u8] + component_of(e));
                    }
                }
            }
            i = i + 1;
        }
        proof {
            assert(self.entries().take(n as int) =~= self.entries());
        }
        serialized
    }

    /// Gets the value stored for the key `name`, or `None` if the key is
    /// absent. Lookup is by exact byte equality.
    pub fn get(&self, name: &[u8]) -> (r: Option<&[u8]>)
        requires
            self.wf(),
        ensures
            match r {
                Some(v) => self@.contains_key(name@) && v@ == self@[name@],
                None => !self@.contains_key(name@),
            },
    {
        let n = self.fields.len();
        let mut i: usize = 0;
        while i < n
            invariant
                i <= n,
                n == self.fields@.len(),
                self.wf(),
                forall|j: int| 0 <= j < i ==> (#[trigger] self.entries()[j]).0 != name@,
            decreases n - i,
        {
            let entry = &self.fields[i];
            if bytes_eq(entry.0.as_slice(), name) {
                proof {
                    lemma_wf_keys_distinct(self);
                    lemma_kv_map_index(self.entries(), i as int);
                }
                return Some(entry.1.as_slice());
            }
            i = i + 1;
        }
        proof {
            lemma_kv_map_absent(self.entries(), name@);
        }
        None
    }

    /// Inserts or overwrites the entry for the key `name`.
    ///
    /// An empty `name` is silently ignored, keeping the store consistent with
    /// what [`QueryString::decode`] accepts: a key is never empty.
    pub fn set(&mut self, name: Vec<u8>, value: Vec<u8>)
        requires
            old(self).wf(),
        ensures
            final(self).wf(),
            name@.len() > 0 ==> final(self)@ == old(self)@.insert(name@, value@),
            name@.len() == 0 ==> final(self)@ == old(self)@,
            forall|i: int|
                0 <= i < final(self).entries().len() ==> (#[trigger] final(self).entries()[i]) == (
                name@,
                value@,
            ) || old(self).entries().contains(final(self).entries()[i]),
    {
        if name.len() == 0 {
            return ;
        }
        let ghost es = self.entries();
        proof {
            lemma_wf_keys_distinct(self);
            assert(forall|i: int, j: int|
                0 <= i < j < es.len() ==> lex_lt((#[trigger] es[i]).0, (#[trigger] es[j]).0));
            assert(keys_distinct(es));
            assert(forall|i: int| 0 <= i < es.len() ==> (#[trigger] es[i]).0.len() > 0);
        }
        let idx = self.find_slot(name.as_slice());
        let mut matches_at_idx = false;
        if idx < self.fields.len() {
            let entry = &self.fields[idx];
            matches_at_idx = bytes_eq(entry.0.as_slice(), name.as_slice());
        }
        if matches_at_idx {
            // Overwrite the value of the existing entry.
            let entry = self.fields.remove(idx);
            self.fields.insert(idx, (entry.0, value));
            proof {
                let es2 = self.entries();
                let target = kv_map(es).insert(name@, value@);
                assert(es2 =~= es.update(idx as int, (name@, value@)));
                assert forall|j: int| 0 <= j < es2.len() implies (#[trigger] es2[j]).0
                    == es[j].0 by {}
                lemma_wf_keys_distinct_entries(es2);
                assert forall|k2: Seq<u8>| #[trigger]
                    has_key(es2, k2) == target.dom().contains(k2) by {
                    if has_key(es2, k2) {
                        let j = choose|i: int|
                            0 <= i < es2.len() && (#[trigger] es2[i]).0 == k2;
                        assert(es[j].0 == k2);
                    }
                    if target.dom().contains(k2) {
                        if k2 == name@ {
                            assert(es2[idx as int].0 == k2);
                        } else {
                            assert(has_key(es, k2));
                            let j = choose|i: int|
                                0 <= i < es.len() && (#[trigger] es[i]).0 == k2;
                            assert(es2[j].0 == k2);
                        }
                    }
                }
                assert(kv_map(es2).dom() =~= target.dom());
                assert forall|k2: Seq<u8>| kv_map(es2).dom().contains(k2) implies #[trigger]
                    kv_map(es2)[k2] == target[k2] by {
                    let j = choose|i: int| 0 <= i < es2.len() && (#[trigger] es2[i]).0 == k2;
                    lemma_kv_map_index(es2, j);
                    if j == idx as int {
                        assert(k2 == name@);
                        assert(kv_map(es2)[k2] == value@);
                    } else {
                        lemma_wf_keys_distinct_entries(es);
                        lemma_kv_map_index(es, j);
                        assert(es[j].0 != name@);
                    }
                }
                assert(self@ =~= target);
            }
        } else {
            // No entry with this key yet: insert one at the sorted position.
            proof {
                if idx < self.fields.len() {
                    lemma_lex_total(self.entries()[idx as int].0, name@);
                }
                assert forall|j: int| idx <= j < es.len() implies lex_lt(
                    name@,
                    (#[trigger] es[j]).0,
                ) by {
                    if j > idx {
                        lemma_lex_trans(name@, es[idx as int].0, es[j].0);
                    }
                }
                assert forall|j: int| 0 <= j < es.len() implies (#[trigger] es[j]).0 != name@ by {
                    lemma_lex_irrefl(name@);
                }
            }
            self.fields.insert(idx, (name, value));
            proof {
                let es2 = self.entries();
                let ghost nm = es2[idx as int].0;
                assert(es2 =~= es.insert(idx as int, (nm, value@)));
                assert forall|i2: int, j2: int| 0 <= i2 < j2 < es2.len() implies lex_lt(
                    (#[trigger] es2[i2]).0,
                    (#[trigger] es2[j2]).0,
                ) by {
                    assert(i2 < idx ==> es2[i2] == es[i2]);
                    assert(i2 > idx ==> es2[i2] == es[i2 - 1]);
                    assert(j2 < idx ==> es2[j2] == es[j2]);
                    assert(j2 > idx ==> es2[j2] == es[j2 - 1]);
                    if i2 < idx && j2 < idx {
                    } else if i2 < idx && j2 == idx {
                    } else if i2 == idx {
                    } else if j2 > idx && i2 < idx {
                    }
                }
                lemma_wf_keys_distinct_entries(es2);
                let target = kv_map(es).insert(nm, value@);
                assert forall|k2: Seq<u8>| #[trigger]
                    has_key(es2, k2) == target.dom().contains(k2) by {
                    if has_key(es2, k2) {
                        let j = choose|i: int|
                            0 <= i < es2.len() && (#[trigger] es2[i]).0 == k2;
                        if j == idx as int {
                            assert(k2 == nm);
                        } else if j < idx as int {
                            assert(es[j].0 == k2);
                        } else {
                            assert(es[j - 1].0 == k2);
                        }
                    }
                    if target.dom().contains(k2) {
                        if k2 == nm {
                            assert(es2[idx as int].0 == k2);
                        } else {
                            assert(has_key(es, k2));
                            let j = choose|i: int|
                                0 <= i < es.len() && (#[trigger] es[i]).0 == k2;
                            if j < idx as int {
                                assert(es2[j].0 == k2);
                            } else {
                                assert(es2[j + 1].0 == k2);
                            }
                        }
                    }
                }
                assert(kv_map(es2).dom() =~= target.dom());
                assert forall|k2: Seq<u8>| kv_map(es2).dom().contains(k2) implies #[trigger]
                    kv_map(es2)[k2] == target[k2] by {
                    let j = choose|i: int| 0 <= i < es2.len() && (#[trigger] es2[i]).0 == k2;
                    lemma_kv_map_index(es2, j);
                    if j == idx as int {
                        assert(k2 == nm);
                        assert(kv_map(es2)[k2] == value@);
                    } else if j < idx as int {
                        lemma_wf_keys_distinct_entries(es);
                        lemma_kv_map_index(es, j);
                        assert(es[j].0 != nm);
                    } else {
                        lemma_wf_keys_distinct_entries(es);
                        lemma_kv_map_index(es, j - 1);
                        assert(es[j - 1].0 != nm);
                    }
                }
                assert(self@ =~= target);
            }
        }
    }

    /// The number of entries in the mapping.
    pub fn len(&self) -> (n: usize)
        ensures
            n == self.entries().len(),
    {
        self.fields.len()
    }

    /// The key of the entry at `index`, in lexicographic key order.
    pub fn key_at(&self, index: usize) -> (r: &Vec<u8>)
        requires
            index < self.entries().len(),
        ensures
            r@ == self.entries()[index as int].0,
    {
        &self.fields[index].0
    }

    /// The value of the entry at `index`, in lexicographic key order.
    pub fn value_at(&self, index: usize) -> (r: &Vec<u8>)
        requires
            index < self.entries().len(),
        ensures
            r@ == self.entries()[index as int].1,
    {
        &self.fields[index].1
    }

    /// Builds a query string from a sequence of key/value pairs, with the
    /// same last-write-wins semantics as repeated [`QueryString::set`] calls;
    /// pairs with empty keys are ignored.
    pub fn from_pairs(pairs: Vec<(Vec<u8>, Vec<u8>)>) -> (r: Self)
        ensures
            r.wf(),
            r@ == pairs_map(pairs@.map_values(|p: (Vec<u8>, Vec<u8>)| (p.0@, p.1@))),
    {
        let ghost ps = pairs@.map_values(|p: (Vec<u8>, Vec<u8>)| (p.0@, p.1@));
        let mut r = Self::new();
        let n = pairs.len();
        let mut i: usize = 0;
        proof {
            assert(ps.take(0) =~= Seq::<(Seq<u8>, Seq<u8>)>::empty());
        }
        while i < n
            invariant
                i <= n,
                n == pairs@.len(),
                ps == pairs@.map_values(|p: (Vec<u8>, Vec<u8>)| (p.0@, p.1@)),
                r.wf(),
                r@ == pairs_map(ps.take(i as int)),
            decreases n - i,
        {
            let entry = &pairs[i];
            let key = copy_range(entry.0.as_slice(), 0, entry.0.len());
            let value = copy_range(entry.1.as_slice(), 0, entry.1.len());
            proof {
                assert(key@ =~= ps[i as int].0);
                assert(value@ =~= ps[i as int].1);
            }
            r.set(key, value);
            proof {
                assert(ps.take(i + 1).drop_last() =~= ps.take(i as int));
                assert(ps.take(i + 1).last() == ps[i as int]);
            }
            i = i + 1;
        }
        proof {
            assert(ps.take(n as int) =~= ps);
        }
        r
    }

    /// The position where the key `name` stands or would be inserted: the
    /// first index whose key does not sort below `name`.
    fn find_slot(&self, name: &[u8]) -> (idx: usize)
        ensures
            idx <= self.entries().len(),
            forall|j: int| 0 <= j < idx ==> lex_lt((#[trigger] self.entries()[j]).0, name@),
            idx < self.entries().len() ==> !lex_lt(self.entries()[idx as int].0, name@),
    {
        let n = self.fields.len();
        let mut idx: usize = 0;
        while idx < n
            invariant
                idx <= n,
                n == self.fields@.len(),
                forall|j: int| 0 <= j < idx ==> lex_lt((#[trigger] self.entries()[j]).0, name@),
            decreases n - idx,
        {
            let entry = &self.fields[idx];
            if !lex_less(entry.0.as_slice(), name) {
                return idx;
            }
            idx = idx + 1;
        }
        idx
    }
}

/// Copies the byte range `[from, to)` of a slice into a fresh vector.
fn copy_range(s: &[u8], from: usize, to: usize) -> (r: Vec<u8>)
    requires
        from <= to <= s@.len(),
    ensures
        r@ == s@.subrange(from as int, to as int),
{
    let mut r: Vec<u8> = Vec::new();
    let mut j = from;
    proof {
        assert(s@.subrange(from as int, from as int) =~= Seq::<u8>::empty());
    }
    while j < to
        invariant
            from <= j <= to,
            to <= s@.len(),
            r@ == s@.subrange(from as int, j as int),
        decreases to - j,
    {
        r.push(s[j]);
        proof {
            assert(s@.subrange(from as int, j + 1) =~= s@.subrange(from as int, j as int).push(
                s@[j as int],
            ));
        }
        j = j + 1;
    }
    r
}

/// Appends all bytes of a slice to a vector.
fn push_bytes(out: &mut Vec<u8>, bytes: &[u8])
    ensures
        final(out)@ == old(out)@ + bytes@,
{
    let mut j: usize = 0;
    proof {
        assert(old(out)@ + bytes@.take(0) =~= old(out)@);
    }
    while j < bytes.len()
        invariant
            j <= bytes@.len(),
            out@ == old(out)@ + bytes@.take(j as int),
        decreases bytes@.len() - j,
    {
        out.push(bytes[j]);
        proof {
            assert(old(out)@ + bytes@.take(j + 1) =~= (old(out)@ + bytes@.take(j as int)).push(
                bytes@[j as int],
            ));
        }
        j = j + 1;
    }
    proof {
        assert(bytes@.take(bytes@.len() as int) =~= bytes@);
    }
}

/// Serializing one more entry appends `&` (when anything came before it) and
/// the entry's component.
proof fn lemma_qs_encode_snoc(es: Seq<(Seq<u8>, Seq<u8>)>, e: (Seq<u8>, Seq<u8>))
    ensures
        es.len() == 0 ==> qs_encode_spec(es.push(e)) == component_of(e),
        es.len() > 0 ==> qs_encode_spec(es.push(e)) == qs_encode_spec(es) + seq![0x26u8]
            + component_of(e),
    decreases es.len(),
{
    if es.len() == 0 {
        assert(es.push(e)[0] == e);
    } else {
        assert(es.push(e).skip(1) =~= es.skip(1).push(e));
        assert(es.push(e)[0] == es[0]);
        lemma_qs_encode_snoc(es.skip(1), e);
        if es.len() == 1 {
            assert(qs_encode_spec(es.push(e)) == component_of(es[0]) + seq![0x26u8]
                + component_of(e));
        } else {
            assert(component_of(es[0]) + seq![0x26u8] + (qs_encode_spec(es.skip(1)) + seq![0x26u8]
                + component_of(e)) =~= (component_of(es[0]) + seq![0x26u8] + qs_encode_spec(
                es.skip(1),
            )) + seq![0x26u8] + component_of(e));
        }
    }
}

/// Byte-for-byte equality of two slices.
fn bytes_eq(a: &[u8], b: &[u8]) -> (r: bool)
    ensures
        r == (a@ == b@),
{
    if a.len() != b.len() {
        return false;
    }
    let mut i: usize = 0;
    while i < a.len()
        invariant
            i <= a@.len(),
            a@.len() == b@.len(),
            forall|j: int| 0 <= j < i ==> a@[j] == b@[j],
        decreases a@.len() - i,
    {
        if a[i] != b[i] {
            return false;
        }
        i = i + 1;
    }
    proof {
        assert(a@ =~= b@);
    }
    true
}

/// Decides the lexicographic byte order of two slices.
fn lex_less(a: &[u8], b: &[u8]) -> (r: bool)
    ensures
        r == lex_lt(a@, b@),
{
    let alen = a.len();
    let blen = b.len();
    let mut i: usize = 0;
    proof {
        assert(a@.skip(0) =~= a@);
        assert(b@.skip(0) =~= b@);
    }
    while i < alen && i < blen
        invariant
            i <= alen,
            i <= blen,
            alen == a@.len(),
            blen == b@.len(),
            lex_lt(a@, b@) == lex_lt(a@.skip(i as int), b@.skip(i as int)),
        decreases alen - i,
    {
        if a[i] < b[i] {
            return true;
        }
        if a[i] > b[i] {
            return false;
        }
        proof {
            assert(a@.skip(i as int).skip(1) =~= a@.skip(i + 1));
            assert(b@.skip(i as int).skip(1) =~= b@.skip(i + 1));
        }
        i = i + 1;
    }
    alen < blen
}

/// Lexicographic order is irreflexive.
proof fn lemma_lex_irrefl(a: Seq<u8>)
    ensures
        !lex_lt(a, a),
    decreases a.len(),
{
    if a.len() > 0 {
        lemma_lex_irrefl(a.skip(1));
    }
}

/// Lexicographic order is total: two sequences are ordered, or equal.
proof fn lemma_lex_total(a: Seq<u8>, b: Seq<u8>)
    ensures
        lex_lt(a, b) || lex_lt(b, a) || a == b,
    decreases a.len(),
{
    if a.len() == 0 || b.len() == 0 {
        if a.len() == b.len() {
            assert(a =~= b);
        }
    } else if a[0] == b[0] {
        lemma_lex_total(a.skip(1), b.skip(1));
        if a.skip(1) == b.skip(1) {
            assert(a.skip(1).len() == b.skip(1).len());
            assert(a.len() == b.len());
            assert forall|i: int| 0 <= i < a.len() implies a[i] == b[i] by {
                if i == 0 {
                    assert(a[0] == b[0]);
                } else {
                    assert(a.skip(1)[i - 1] == a[i]);
                    assert(b.skip(1)[i - 1] == b[i]);
                }
            }
            assert(a =~= b);
        }
    }
}

/// Lexicographic order is transitive.
proof fn lemma_lex_trans(a: Seq<u8>, b: Seq<u8>, c: Seq<u8>)
    requires
        lex_lt(a, b),
        lex_lt(b, c),
    ensures
        lex_lt(a, c),
    decreases a.len(),
{
    if a.len() > 0 && b.len() > 0 && c.len() > 0 {
        if a[0] == b[0] && b[0] == c[0] {
            lemma_lex_trans(a.skip(1), b.skip(1), c.skip(1));
        }
    }
}

/// A well-formed store's keys are pairwise distinct.
proof fn lemma_wf_keys_distinct(q: &QueryString)
    requires
        q.wf(),
    ensures
        forall|i: int, j: int|
            0 <= i < j < q.entries().len() ==> (#[trigger] q.entries()[i]).0 != (
            #[trigger] q.entries()[j]).0,
{
    assert forall|i: int, j: int| 0 <= i < j < q.entries().len() implies (
    #[trigger] q.entries()[i]).0 != (#[trigger] q.entries()[j]).0 by {
        lemma_lex_irrefl(q.entries()[i].0);
    }
}

/// Strictly sorted keys are pairwise distinct.
proof fn lemma_wf_keys_distinct_entries(es: Seq<(Seq<u8>, Seq<u8>)>)
    requires
        forall|i: int, j: int|
            0 <= i < j < es.len() ==> lex_lt((#[trigger] es[i]).0, (#[trigger] es[j]).0),
    ensures
        keys_distinct(es),
{
    assert forall|i: int, j: int| 0 <= i < j < es.len() implies (#[trigger] es[i]).0 != (
    #[trigger] es[j]).0 by {
        lemma_lex_irrefl(es[i].0);
    }
}

/// Pairwise distinct keys.
pub open spec fn keys_distinct(es: Seq<(Seq<u8>, Seq<u8>)>) -> bool {
    forall|i: int, j: int| 0 <= i < j < es.len() ==> (#[trigger] es[i]).0 != (#[trigger] es[j]).0
}

/// With distinct keys, the entry at any index gives its key's mapping.
proof fn lemma_kv_map_index(es: Seq<(Seq<u8>, Seq<u8>)>, i: int)
    requires
        keys_distinct(es),
        0 <= i < es.len(),
    ensures
        kv_map(es).contains_key(es[i].0),
        kv_map(es)[es[i].0] == es[i].1,
{
    let k = es[i].0;
    assert(0 <= i < es.len() && es[i].0 == k);
    let c = choose|j: int| 0 <= j < es.len() && es[j].0 == k;
    assert(c == i);
}

/// `find_byte` stays within bounds, lands on `c` when inside them, and
/// nothing before it is `c`.
proof fn lemma_find_byte_bounds(s: Seq<u8>, c: u8)
    ensures
        0 <= find_byte(s, c) <= s.len(),
        find_byte(s, c) < s.len() ==> s[find_byte(s, c)] == c,
        forall|i: int| 0 <= i < find_byte(s, c) ==> s[i] != c,
    decreases s.len(),
{
    if s.len() == 0 || s[0] == c {
    } else {
        lemma_find_byte_bounds(s.skip(1), c);
        let n = find_byte(s, c);
        assert forall|i: int| 0 <= i < n implies s[i] != c by {
            if i > 0 {
                assert(s.skip(1)[i - 1] == s[i]);
            }
        }
        if n < s.len() {
            assert(s.skip(1)[n - 1] == s[n]);
        }
    }
}

/// Any index with `find_byte`'s characteristic properties is its result.
proof fn lemma_find_byte_is(s: Seq<u8>, c: u8, n: int)
    requires
        0 <= n <= s.len(),
        n < s.len() ==> s[n] == c,
        forall|i: int| 0 <= i < n ==> s[i] != c,
    ensures
        find_byte(s, c) == n,
    decreases s.len(),
{
    if s.len() == 0 {
    } else if n == 0 {
    } else {
        assert(s[0] != c);
        assert forall|i: int| 0 <= i < n - 1 implies s.skip(1)[i] != c by {
            assert(s.skip(1)[i] == s[i + 1]);
        }
        if n < s.len() {
            assert(s.skip(1)[n - 1] == s[n]);
        }
        lemma_find_byte_is(s.skip(1), c, n - 1);
    }
}

/// A clean entry's component holds no `&`, and splits back into the entry.
proof fn lemma_component_entry_of(e: (Seq<u8>, Seq<u8>))
    requires
        entry_clean(e),
    ensures
        forall|j: int| 0 <= j < component_of(e).len() ==> component_of(e)[j] != 0x26,
        component_entry(component_of(e)) == e,
{
    let comp = component_of(e);
    assert forall|j: int| 0 <= j < e.0.len() implies e.0[j] != 0x26 && e.0[j] != 0x3D by {
        if e.0[j] == 0x26 || e.0[j] == 0x3D {
            assert(e.0.contains(e.0[j]));
        }
    }
    assert forall|j: int| 0 <= j < e.1.len() implies e.1[j] != 0x26 by {
        if e.1[j] == 0x26 {
            assert(e.1.contains(e.1[j]));
        }
    }
    if e.1.len() == 0 {
        lemma_find_byte_is(comp, 0x3D, comp.len() as int);
        assert(e.1 =~= Seq::<u8>::empty());
    } else {
        assert(comp == e.0 + seq![0x3Du8] + e.1);
        assert(comp[e.0.len() as int] == 0x3D);
        assert forall|j: int| 0 <= j < e.0.len() implies comp[j] != 0x3D by {
            assert(comp[j] == e.0[j]);
        }
        lemma_find_byte_is(comp, 0x3D, e.0.len() as int);
        assert(comp.take(e.0.len() as int) =~= e.0);
        assert(comp.skip(e.0.len() + 1 as int) =~= e.1);
    }
}

/// Decoding the serialization of clean entries with distinct keys yields
/// exactly their mapping.
proof fn lemma_qs_encode_decode(es: Seq<(Seq<u8>, Seq<u8>)>)
    requires
        keys_distinct(es),
        forall|i: int| 0 <= i < es.len() ==> entry_clean(#[trigger] es[i]),
    ensures
        qs_decode_spec(qs_encode_spec(es)) == kv_map(es),
    decreases es.len(),
{
    if es.len() == 0 {
        assert(qs_decode_spec(qs_encode_spec(es)) =~= kv_map(es));
    } else {
        let e0 = es[0];
        let comp = component_of(e0);
        let enc = qs_encode_spec(es);
        lemma_component_entry_of(e0);
        if es.len() == 1 {
            assert(enc == comp);
            lemma_find_byte_is(enc, 0x26, enc.len() as int);
            assert(enc.take(enc.len() as int) =~= comp);
            let m = Map::<Seq<u8>, Seq<u8>>::empty().insert(e0.0, e0.1);
            assert(qs_decode_spec(enc) == m.union_prefer_right(
                Map::<Seq<u8>, Seq<u8>>::empty(),
            ));
            assert forall|k: Seq<u8>| #[trigger] has_key(es, k) implies k == e0.0 by {}
            assert forall|k: Seq<u8>|
                qs_decode_spec(enc).dom().contains(k) == kv_map(es).dom().contains(k) by {
                if k == e0.0 {
                    assert(es[0].0 == k);
                    assert(has_key(es, k));
                }
            }
            assert(qs_decode_spec(enc).dom() =~= kv_map(es).dom());
            assert forall|k: Seq<u8>| kv_map(es).dom().contains(k) implies #[trigger]
                qs_decode_spec(enc)[k] == kv_map(es)[k] by {
                assert(k == e0.0);
                lemma_kv_map_index(es, 0);
            }
            assert(qs_decode_spec(enc) =~= kv_map(es));
        } else {
            let tail = es.skip(1);
            let enc_tail = qs_encode_spec(tail);
            assert(enc == comp + seq![0x26u8] + enc_tail);
            assert forall|j: int| 0 <= j < comp.len() implies enc[j] != 0x26 by {
                assert(enc[j] == comp[j]);
            }
            assert(enc[comp.len() as int] == 0x26);
            lemma_find_byte_is(enc, 0x26, comp.len() as int);
            assert(enc.take(comp.len() as int) =~= comp);
            assert(enc.skip(comp.len() + 1 as int) =~= enc_tail);
            assert forall|i: int, j: int| 0 <= i < j < tail.len() implies (#[trigger] tail[i]).0
                != (#[trigger] tail[j]).0 by {
                assert(tail[i] == es[i + 1] && tail[j] == es[j + 1]);
            }
            assert forall|i: int| 0 <= i < tail.len() implies entry_clean(#[trigger] tail[i]) by {
                assert(tail[i] == es[i + 1]);
            }
            lemma_qs_encode_decode(tail);
            let m = Map::<Seq<u8>, Seq<u8>>::empty().insert(e0.0, e0.1);
            assert(qs_decode_spec(enc) == m.union_prefer_right(kv_map(tail)));
            assert forall|k: Seq<u8>|
                qs_decode_spec(enc).dom().contains(k) == kv_map(es).dom().contains(k) by {
                if k == e0.0 {
                    assert(es[0].0 == k);
                    assert(has_key(es, k));
                }
                if has_key(tail, k) {
                    let j = choose|i: int| 0 <= i < tail.len() && (#[trigger] tail[i]).0 == k;
                    assert(es[j + 1].0 == k);
                    assert(has_key(es, k));
                }
                if has_key(es, k) {
                    let j = choose|i: int| 0 <= i < es.len() && (#[trigger] es[i]).0 == k;
                    if j > 0 {
                        assert(tail[j - 1].0 == k);
                        assert(has_key(tail, k));
                    }
                }
            }
            assert(qs_decode_spec(enc).dom() =~= kv_map(es).dom());
            assert forall|k: Seq<u8>| kv_map(es).dom().contains(k) implies #[trigger]
                qs_decode_spec(enc)[k] == kv_map(es)[k] by {
                let j = choose|i: int| 0 <= i < es.len() && (#[trigger] es[i]).0 == k;
                lemma_kv_map_index(es, j);
                if j == 0 {
                    assert(k == e0.0);
                    assert forall|i2: int| 0 <= i2 < tail.len() implies (#[trigger] tail[i2]).0
                        != k by {
                        assert(tail[i2] == es[i2 + 1]);
                    }
                    lemma_kv_map_absent(tail, k);
                    assert(qs_decode_spec(enc)[k] == e0.1);
                } else {
                    assert(tail[j - 1].0 == k);
                    assert forall|i2: int, j2: int|
                        0 <= i2 < j2 < tail.len() implies (#[trigger] tail[i2]).0 != (
                    #[trigger] tail[j2]).0 by {
                        assert(tail[i2] == es[i2 + 1] && tail[j2] == es[j2 + 1]);
                    }
                    lemma_kv_map_index(tail, j - 1);
                    assert(qs_decode_spec(enc)[k] == kv_map(tail)[k]);
                }
            }
            assert(qs_decode_spec(enc) =~= kv_map(es));
        }
    }
}

/// Encode/decode stability: re-decoding the encoding of a store, as `decode`
/// builds one, restores exactly its mapping.
pub proof fn lemma_encode_decode_stable(q: &QueryString)
    requires
        q.wf(),
        forall|i: int| 0 <= i < q.entries().len() ==> entry_clean(#[trigger] q.entries()[i]),
    ensures
        qs_decode_spec(qs_encode_spec(q.entries())) == q@,
{
    lemma_wf_keys_distinct(q);
    lemma_qs_encode_decode(q.entries());
}

/// Dropping the first entry removes exactly its key from the mapping.
proof fn lemma_kv_map_skip_head(es: Seq<(Seq<u8>, Seq<u8>)>)
    requires
        keys_distinct(es),
        es.len() > 0,
    ensures
        kv_map(es.skip(1)) == kv_map(es).remove(es[0].0),
{
    let t = es.skip(1);
    let target = kv_map(es).remove(es[0].0);
    assert forall|i2: int, j2: int| 0 <= i2 < j2 < t.len() implies (#[trigger] t[i2]).0 != (
    #[trigger] t[j2]).0 by {
        assert(t[i2] == es[i2 + 1] && t[j2] == es[j2 + 1]);
    }
    assert forall|k: Seq<u8>| #[trigger] has_key(t, k) == target.dom().contains(k) by {
        if has_key(t, k) {
            let j = choose|i: int| 0 <= i < t.len() && (#[trigger] t[i]).0 == k;
            assert(es[j + 1].0 == k);
            assert(has_key(es, k));
            assert(k != es[0].0);
        }
        if target.dom().contains(k) {
            let j = choose|i: int| 0 <= i < es.len() && (#[trigger] es[i]).0 == k;
            assert(j != 0);
            assert(t[j - 1].0 == k);
            assert(has_key(t, k));
        }
    }
    assert(kv_map(t).dom() =~= target.dom());
    assert forall|k: Seq<u8>| kv_map(t).dom().contains(k) implies #[trigger] kv_map(t)[k]
        == target[k] by {
        let j = choose|i: int| 0 <= i < t.len() && (#[trigger] t[i]).0 == k;
        lemma_kv_map_index(t, j);
        assert(es[j + 1].0 == k);
        lemma_kv_map_index(es, j + 1);
        assert(k != es[0].0);
    }
    assert(kv_map(t) =~= target);
}

/// Strictly sorted entry sequences with the same mapping are identical.
proof fn lemma_sorted_entries_unique(es1: Seq<(Seq<u8>, Seq<u8>)>, es2: Seq<(Seq<u8>, Seq<u8>)>)
    requires
        entries_sorted(es1),
        entries_sorted(es2),
        kv_map(es1) == kv_map(es2),
    ensures
        es1 == es2,
    decreases es1.len(),
{
    lemma_wf_keys_distinct_entries(es1);
    lemma_wf_keys_distinct_entries(es2);
    if es1.len() == 0 && es2.len() == 0 {
        assert(es1 =~= es2);
    } else if es1.len() == 0 {
        lemma_kv_map_index(es2, 0);
        assert(has_key(es1, es2[0].0));
        assert(false);
    } else if es2.len() == 0 {
        lemma_kv_map_index(es1, 0);
        assert(has_key(es2, es1[0].0));
        assert(false);
    } else {
        let k1 = es1[0].0;
        let k2 = es2[0].0;
        lemma_kv_map_index(es1, 0);
        lemma_kv_map_index(es2, 0);
        assert(has_key(es2, k1));
        assert(has_key(es1, k2));
        let j2 = choose|i: int| 0 <= i < es2.len() && (#[trigger] es2[i]).0 == k1;
        let j1 = choose|i: int| 0 <= i < es1.len() && (#[trigger] es1[i]).0 == k2;
        if j2 > 0 && j1 > 0 {
            assert(lex_lt(k2, es2[j2].0));
            assert(lex_lt(k1, es1[j1].0));
            lemma_lex_trans(k1, k2, k1);
            lemma_lex_irrefl(k1);
            assert(false);
        }
        assert(k1 == k2);
        assert(kv_map(es1)[k1] == es1[0].1);
        assert(kv_map(es2)[k1] == es2[0].1);
        assert(es1[0] == es2[0]);
        lemma_kv_map_skip_head(es1);
        lemma_kv_map_skip_head(es2);
        assert forall|i2: int, j2b: int|
            0 <= i2 < j2b < es1.skip(1).len() implies lex_lt(
            (#[trigger] es1.skip(1)[i2]).0,
            (#[trigger] es1.skip(1)[j2b]).0,
        ) by {
            assert(es1.skip(1)[i2] == es1[i2 + 1] && es1.skip(1)[j2b] == es1[j2b + 1]);
        }
        assert forall|i2: int, j2b: int|
            0 <= i2 < j2b < es2.skip(1).len() implies lex_lt(
            (#[trigger] es2.skip(1)[i2]).0,
            (#[trigger] es2.skip(1)[j2b]).0,
        ) by {
            assert(es2.skip(1)[i2] == es2[i2 + 1] && es2.skip(1)[j2b] == es2[j2b + 1]);
        }
        lemma_sorted_entries_unique(es1.skip(1), es2.skip(1));
        assert(es1.len() == es2.len());
        assert forall|i: int| 0 <= i < es1.len() implies es1[i] == es2[i] by {
            if i > 0 {
                assert(es1.skip(1)[i - 1] == es1[i]);
                assert(es2.skip(1)[i - 1] == es2[i]);
            }
        }
        assert(es1 =~= es2);
    }
}

/// Canonical serialization: two well-formed stores with the same mapping hold
/// the same entries, so they encode to the same bytes, whatever order their
/// entries were inserted in.
pub proof fn lemma_encode_deterministic(q1: &QueryString, q2: &QueryString)
    requires
        q1.wf(),
        q2.wf(),
        q1@ == q2@,
    ensures
        q1.entries() == q2.entries(),
        qs_encode_spec(q1.entries()) == qs_encode_spec(q2.entries()),
{
    lemma_sorted_entries_unique(q1.entries(), q2.entries());
}

/// Iteration agrees with lookup: the entry at any index of a well-formed
/// store gives exactly its key's mapping.
pub proof fn lemma_entry_index(q: &QueryString, i: int)
    requires
        q.wf(),
        0 <= i < q.entries().len(),
    ensures
        q@.contains_key(q.entries()[i].0),
        q@[q.entries()[i].0] == q.entries()[i].1,
{
    lemma_wf_keys_distinct(q);
    lemma_kv_map_index(q.entries(), i);
}

impl Default for QueryString {
    /// An empty query string.
    fn default() -> (r: Self)
        ensures
            r@ == Map::<Seq<u8>, Seq<u8>>::empty(),
            r.wf(),
    {
        Self::new()
    }
}

/// A key held by no entry is absent from the mapping.
proof fn lemma_kv_map_absent(es: Seq<(Seq<u8>, Seq<u8>)>, k: Seq<u8>)
    requires
        forall|i: int| 0 <= i < es.len() ==> (#[trigger] es[i]).0 != k,
    ensures
        !kv_map(es).contains_key(k),
{
}

} // verus!
