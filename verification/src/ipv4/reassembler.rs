use vstd::prelude::*;

use super::header::Header;
use super::parser::{parse, header_of, HEADER_LEN};
use vstd::slice::slice_to_vec;

verus! {

// ---------------------------------------------------------------------------
// Offset-keyed entry sequences.
//
// A fragment store holds one payload per distinct fragment offset. It is kept
// as a sequence of (offset, payload) entries sorted by offset, so that
// reassembly is plain concatenation; the contracts speak of the map from
// offsets to payloads that the sequence spells out.
// ---------------------------------------------------------------------------

/// The map that a sequence of keyed entries spells out; a later entry with
/// the same key would win.
pub open spec fn entries_map<V>(s: Seq<(u16, V)>) -> Map<u16, V>
    decreases s.len(),
{
    if s.len() == 0 {
        Map::empty()
    } else {
        entries_map(s.drop_last()).insert(s.last().0, s.last().1)
    }
}

/// Whether some entry carries the key `k`.
pub open spec fn has_key<V>(s: Seq<(u16, V)>, k: u16) -> bool {
    exists|i: int| 0 <= i < s.len() && s[i].0 == k
}

/// No two entries share a key.
pub open spec fn keys_distinct<V>(s: Seq<(u16, V)>) -> bool {
    forall|i: int, j: int| 0 <= i < j < s.len() ==> s[i].0 != s[j].0
}

/// Keys are strictly increasing.
pub open spec fn keys_ascending<V>(s: Seq<(u16, V)>) -> bool {
    forall|i: int, j: int| 0 <= i < j < s.len() ==> s[i].0 < s[j].0
}

proof fn lemma_entries_map_dom<V>(s: Seq<(u16, V)>)
    ensures
        forall|k: u16| #[trigger] entries_map(s).dom().contains(k) == has_key(s, k),
    decreases s.len(),
{
    if s.len() > 0 {
        lemma_entries_map_dom(s.drop_last());
        assert forall|k: u16| #[trigger] entries_map(s).dom().contains(k) == has_key(s, k) by {
            assert(entries_map(s) == entries_map(s.drop_last()).insert(s.last().0, s.last().1));
            if entries_map(s).dom().contains(k) {
                if k == s.last().0 {
                    assert(s[s.len() - 1].0 == k);
                    assert(has_key(s, k));
                } else {
                    assert(entries_map(s.drop_last()).dom().contains(k));
                    assert(has_key(s.drop_last(), k));
                    let i = choose|i: int| 0 <= i < s.drop_last().len() && s.drop_last()[i].0 == k;
                    assert(s.drop_last()[i] == s[i]);
                    assert(has_key(s, k));
                }
            }
            if has_key(s, k) {
                let i = choose|i: int| 0 <= i < s.len() && s[i].0 == k;
                if i < s.len() - 1 {
                    assert(s.drop_last()[i].0 == k);
                    assert(has_key(s.drop_last(), k));
                    assert(entries_map(s.drop_last()).dom().contains(k));
                } else {
                    assert(k == s.last().0);
                }
                assert(entries_map(s).dom().contains(k));
            }
        }
    }
}

proof fn lemma_entries_map_index<V>(s: Seq<(u16, V)>, i: int)
    requires
        keys_distinct(s),
        0 <= i < s.len(),
    ensures
        entries_map(s).dom().contains(s[i].0),
        entries_map(s)[s[i].0] == s[i].1,
    decreases s.len(),
{
    if i < s.len() - 1 {
        assert(s.drop_last()[i] == s[i]);
        lemma_entries_map_index(s.drop_last(), i);
        assert(s[i].0 != s.last().0);
    }
}

proof fn lemma_entries_map_update<V>(s: Seq<(u16, V)>, i: int, v: V)
    requires
        keys_distinct(s),
        0 <= i < s.len(),
    ensures
        entries_map(s.update(i, (s[i].0, v))) == entries_map(s).insert(s[i].0, v),
    decreases s.len(),
{
    let k = s[i].0;
    let s2 = s.update(i, (k, v));
    if i == s.len() - 1 {
        assert(s2.drop_last() =~= s.drop_last());
        assert(s2.last() == (k, v));
        assert(entries_map(s.drop_last()).insert(k, v) =~= entries_map(s.drop_last()).insert(
            k,
            s.last().1,
        ).insert(k, v));
    } else {
        assert(s2.drop_last() =~= s.drop_last().update(i, (k, v)));
        assert(s2.last() == s.last());
        lemma_entries_map_update(s.drop_last(), i, v);
        assert(k != s.last().0);
        assert(entries_map(s.drop_last()).insert(k, v).insert(s.last().0, s.last().1)
            =~= entries_map(s.drop_last()).insert(s.last().0, s.last().1).insert(k, v));
    }
}

proof fn lemma_entries_map_insert_at<V>(s: Seq<(u16, V)>, i: int, k: u16, v: V)
    requires
        0 <= i <= s.len(),
        !has_key(s, k),
    ensures
        entries_map(s.insert(i, (k, v))) == entries_map(s).insert(k, v),
    decreases s.len(),
{
    let s2 = s.insert(i, (k, v));
    if i == s.len() {
        assert(s2.drop_last() =~= s);
        assert(s2.last() == (k, v));
    } else {
        assert(s2.last() == s.last());
        assert(s2.drop_last() =~= s.drop_last().insert(i, (k, v)));
        assert(!has_key(s.drop_last(), k)) by {
            if has_key(s.drop_last(), k) {
                let j = choose|j: int| 0 <= j < s.drop_last().len() && s.drop_last()[j].0 == k;
                assert(s[j].0 == k);
            }
        }
        lemma_entries_map_insert_at(s.drop_last(), i, k, v);
        assert(s.last().0 != k) by {
            assert(s[s.len() - 1].0 == s.last().0);
        }
        assert(entries_map(s.drop_last()).insert(k, v).insert(s.last().0, s.last().1)
            =~= entries_map(s.drop_last()).insert(s.last().0, s.last().1).insert(k, v));
    }
}

proof fn lemma_entries_map_remove_at<V>(s: Seq<(u16, V)>, i: int)
    requires
        keys_distinct(s),
        0 <= i < s.len(),
    ensures
        entries_map(s.remove(i)) == entries_map(s).remove(s[i].0),
    decreases s.len(),
{
    let k = s[i].0;
    let s2 = s.remove(i);
    if i == s.len() - 1 {
        assert(s2 =~= s.drop_last());
        lemma_entries_map_dom(s.drop_last());
        assert(!has_key(s.drop_last(), k)) by {
            if has_key(s.drop_last(), k) {
                let j = choose|j: int| 0 <= j < s.drop_last().len() && s.drop_last()[j].0 == k;
                assert(s[j].0 == k);
            }
        }
        assert(entries_map(s.drop_last()) =~= entries_map(s.drop_last()).insert(
            k,
            s.last().1,
        ).remove(k));
    } else {
        assert(s2.last() == s.last());
        assert(s2.drop_last() =~= s.drop_last().remove(i));
        lemma_entries_map_remove_at(s.drop_last(), i);
        assert(k != s.last().0);
        assert(entries_map(s.drop_last()).remove(k).insert(s.last().0, s.last().1)
            =~= entries_map(s.drop_last()).insert(s.last().0, s.last().1).remove(k));
    }
}

/// Two entry sequences sorted by offset that spell out the same map are the
/// same sequence: the sorted form of a fragment store is unique.
proof fn lemma_sorted_by_map<V>(s1: Seq<(u16, V)>, s2: Seq<(u16, V)>)
    requires
        keys_ascending(s1),
        keys_ascending(s2),
        entries_map(s1) == entries_map(s2),
    ensures
        s1 == s2,
    decreases s1.len(),
{
    lemma_entries_map_dom(s1);
    lemma_entries_map_dom(s2);
    if s1.len() == 0 {
        if s2.len() > 0 {
            assert(s2[s2.len() - 1].0 == s2.last().0);
            assert(entries_map(s2).dom().contains(s2.last().0));
            assert(false);
        }
        assert(s1 =~= s2);
    } else if s2.len() == 0 {
        assert(s1[s1.len() - 1].0 == s1.last().0);
        assert(entries_map(s1).dom().contains(s1.last().0));
        assert(false);
    } else {
        let k1 = s1.last().0;
        let k2 = s2.last().0;
        assert(s1[s1.len() - 1].0 == k1);
        assert(s2[s2.len() - 1].0 == k2);
        assert(k2 <= k1) by {
            assert(entries_map(s1).dom().contains(k2));
            let i = choose|i: int| 0 <= i < s1.len() && s1[i].0 == k2;
            if i < s1.len() - 1 {
                assert(s1[i].0 < s1[s1.len() - 1].0);
            }
        }
        assert(k1 <= k2) by {
            assert(entries_map(s2).dom().contains(k1));
            let i = choose|i: int| 0 <= i < s2.len() && s2[i].0 == k1;
            if i < s2.len() - 1 {
                assert(s2[i].0 < s2[s2.len() - 1].0);
            }
        }
        assert(k1 == k2);
        assert(entries_map(s1)[k1] == s1.last().1);
        assert(entries_map(s2)[k1] == s2.last().1);
        assert(s1.last() =~= s2.last());
        assert(!has_key(s1.drop_last(), k1)) by {
            if has_key(s1.drop_last(), k1) {
                let j = choose|j: int| 0 <= j < s1.drop_last().len() && s1.drop_last()[j].0 == k1;
                assert(s1[j].0 < s1[s1.len() - 1].0);
            }
        }
        assert(!has_key(s2.drop_last(), k1)) by {
            if has_key(s2.drop_last(), k1) {
                let j = choose|j: int| 0 <= j < s2.drop_last().len() && s2.drop_last()[j].0 == k1;
                assert(s2[j].0 < s2[s2.len() - 1].0);
            }
        }
        lemma_entries_map_dom(s1.drop_last());
        lemma_entries_map_dom(s2.drop_last());
        assert(entries_map(s1.drop_last()) =~= entries_map(s1).remove(k1));
        assert(entries_map(s2.drop_last()) =~= entries_map(s2).remove(k1));
        lemma_sorted_by_map(s1.drop_last(), s2.drop_last());
        assert(s1 =~= s2) by {
            assert(forall|i: int|
                0 <= i < s1.len() - 1 ==> s1[i] == s1.drop_last()[i] && s2[i] == s2.drop_last()[i]);
        }
    }
}

// ---------------------------------------------------------------------------
// Reassembled bytes and the completeness walk.
// ---------------------------------------------------------------------------

/// Concatenation of the payloads of a sequence of entries, in sequence order.
pub open spec fn concat_payloads(s: Seq<(u16, Seq<u8>)>) -> Seq<u8>
    decreases s.len(),
{
    if s.len() == 0 {
        Seq::empty()
    } else {
        concat_payloads(s.drop_last()) + s.last().1
    }
}

/// The entries of a fragment map sorted by offset. Every map a store can
/// reach has exactly one sorted entry form.
pub open spec fn sorted_entries(m: Map<u16, Seq<u8>>) -> Seq<(u16, Seq<u8>)> {
    choose|s: Seq<(u16, Seq<u8>)>| keys_ascending(s) && entries_map(s) == m
}

/// The bytes a fragment map reassembles to: all payloads concatenated in
/// ascending offset order.
pub open spec fn assembled(m: Map<u16, Seq<u8>>) -> Seq<u8> {
    concat_payloads(sorted_entries(m))
}

/// For a sequence sorted by offset, `assembled` of its map is exactly the
/// concatenation of its payloads.
pub proof fn lemma_assembled(s: Seq<(u16, Seq<u8>)>)
    requires
        keys_ascending(s),
    ensures
        sorted_entries(entries_map(s)) == s,
        assembled(entries_map(s)) == concat_payloads(s),
{
    let m = entries_map(s);
    assert(keys_ascending(s) && entries_map(s) == m);
    let s2 = sorted_entries(m);
    assert(keys_ascending(s2) && entries_map(s2) == m) by {
        assert(exists|t: Seq<(u16, Seq<u8>)>| keys_ascending(t) && entries_map(t) == m);
    }
    lemma_sorted_by_map(s2, s);
}

/// The completeness walk from cursor `c`: the cursor's offset must be
/// present; reaching the terminal offset succeeds; otherwise the cursor
/// advances by the length of the fragment found there. A fragment of length
/// zero, or one that would push the cursor past the largest offset, leaves a
/// gap that no later arrival can close.
pub open spec fn covered_from(m: Map<u16, Seq<u8>>, t: u16, c: int) -> bool
    decreases 0x10000 - c,
    when 0 <= c <= 0xFFFF
{
    if !m.dom().contains(c as u16) {
        false
    } else if c == t {
        true
    } else {
        let n = c + m[c as u16].len();
        if n <= c || n > 0xFFFF {
            false
        } else {
            covered_from(m, t, n)
        }
    }
}

/// A fragment map with terminal offset `terminal` holds a complete datagram
/// when contiguous coverage from offset 0 reaches the terminal fragment.
pub open spec fn complete(m: Map<u16, Seq<u8>>, terminal: Option<u16>) -> bool {
    match terminal {
        Some(t) => covered_from(m, t, 0),
        None => false,
    }
}

// ---------------------------------------------------------------------------
// Per-datagram fragment store.
// ---------------------------------------------------------------------------

/// Fragment store for one datagram identifier: the payloads received so far,
/// keyed and sorted by fragment offset, and the offset of the terminal
/// fragment once one has arrived.
pub struct Reassembler {
    fragments: Vec<(u16, Vec<u8>)>,
    last_fragment_offset: Option<u16>,
}

impl Reassembler {
    /// The stored entries: offsets paired with payload byte strings, in
    /// storage order.
    pub closed spec fn entries(self) -> Seq<(u16, Seq<u8>)> {
        self.fragments@.map_values(|e: (u16, Vec<u8>)| (e.0, e.1@))
    }

    /// The fragment map: the payload bytes received per distinct offset.
    pub open spec fn frags(self) -> Map<u16, Seq<u8>> {
        entries_map(self.entries())
    }

    /// The offset of the terminal fragment, once one has arrived.
    pub closed spec fn terminal(self) -> Option<u16> {
        self.last_fragment_offset
    }

    /// The store keeps its entries sorted strictly by offset.
    pub open spec fn wf(self) -> bool {
        keys_ascending(self.entries())
    }

    /// Contiguous coverage from offset 0 reaches the terminal fragment.
    pub open spec fn is_complete(self) -> bool {
        complete(self.frags(), self.terminal())
    }

    /// A fresh store with no fragments and no terminal offset.
    pub fn new() -> (r: Reassembler)
        ensures
            r.wf(),
            r.frags() == Map::<u16, Seq<u8>>::empty(),
            r.terminal() == None::<u16>,
    {
        let r = Reassembler { fragments: Vec::new(), last_fragment_offset: None };
        proof {
            assert(r.entries() =~= Seq::<(u16, Seq<u8>)>::empty());
            assert(r.frags() =~= Map::<u16, Seq<u8>>::empty());
        }
        r
    }

    /// Records `payload` at the fragment's offset, overwriting any earlier
    /// payload stored there, and remembers the offset of a terminal fragment.
    pub fn insert(&mut self, header: &Header, payload: Vec<u8>)
        requires
            old(self).wf(),
        ensures
            final(self).wf(),
            final(self).frags() == old(self).frags().insert(header.fragment_offset, payload@),
            final(self).terminal() == (if header.is_last() {
                Some(header.fragment_offset)
            } else {
                old(self).terminal()
            }),
    {
        let off = header.fragment_offset;
        let ghost e0 = self.entries();
        let mut i: usize = 0;
        while i < self.fragments.len() && self.fragments[i].0 < off
            invariant
                self.fragments@ == old(self).fragments@,
                self.last_fragment_offset == old(self).last_fragment_offset,
                old(self).wf(),
                i <= self.fragments@.len(),
                forall|j: int| 0 <= j < i ==> (#[trigger] old(self).entries()[j]).0 < off,
            decreases self.fragments@.len() - i,
        {
            i += 1;
        }
        if i < self.fragments.len() && self.fragments[i].0 == off {
            let _replaced = self.fragments.remove(i);
            self.fragments.insert(i, (off, payload));
            proof {
                assert(keys_distinct(e0));
                assert(self.entries() =~= e0.update(i as int, (off, payload@)));
                assert(e0[i as int].0 == off);
                lemma_entries_map_update(e0, i as int, payload@);
                assert(keys_ascending(self.entries())) by {
                    assert(forall|a: int, b: int|
                        0 <= a < b < self.entries().len() ==> (#[trigger] self.entries()[a]).0 == e0[
                            a
                        ].0 && (#[trigger] self.entries()[b]).0 == e0[b].0);
                }
            }
        } else {
            proof {
                assert(!has_key(e0, off)) by {
                    if has_key(e0, off) {
                        let j = choose|j: int| 0 <= j < e0.len() && e0[j].0 == off;
                        if j >= i {
                            assert(e0[i as int].0 <= e0[j].0);
                        }
                    }
                }
            }
            self.fragments.insert(i, (off, payload));
            proof {
                assert(self.entries() =~= e0.insert(i as int, (off, payload@)));
                lemma_entries_map_insert_at(e0, i as int, off, payload@);
                assert(keys_ascending(self.entries())) by {
                    let e1 = self.entries();
                    assert(forall|a: int| 0 <= a < i ==> (#[trigger] e1[a]) == e0[a]);
                    assert(forall|a: int|
                        i < a < e1.len() ==> (#[trigger] e1[a]) == e0[a - 1]);
                    assert(e1[i as int].0 == off);
                    assert forall|a: int, b: int| 0 <= a < b < e1.len() implies e1[a].0 < e1[b].0 by {
                        if a < i && b > i {
                            assert(e0[a].0 < off || a == i);
                            assert(e0[b - 1].0 >= e0[i as int].0 || i as int > e0.len() - 1);
                        }
                        if b == i {
                            assert(e0[a].0 < off);
                        }
                        if a == i && b > i {
                            assert(e0[b - 1].0 >= e0[i as int].0);
                        }
                    }
                }
            }
        }
        if header.is_last_fragment() {
            self.last_fragment_offset = Some(off);
        }
    }

    /// The payload stored at `offset`, if any fragment has arrived there.
    fn get_fragment(&self, offset: u16) -> (r: Option<&Vec<u8>>)
        requires
            self.wf(),
        ensures
            (match r {
                Some(v) => self.frags().dom().contains(offset) && v@ == self.frags()[offset],
                None => !self.frags().dom().contains(offset),
            }),
    {
        let mut i: usize = 0;
        while i < self.fragments.len()
            invariant
                self.wf(),
                i <= self.fragments@.len(),
                forall|j: int| 0 <= j < i ==> (#[trigger] self.entries()[j]).0 != offset,
            decreases self.fragments@.len() - i,
        {
            if self.fragments[i].0 == offset {
                proof {
                    assert(keys_distinct(self.entries()));
                    lemma_entries_map_index(self.entries(), i as int);
                }
                return Some(&self.fragments[i].1);
            }
            i += 1;
        }
        proof {
            lemma_entries_map_dom(self.entries());
            assert(!has_key(self.entries(), offset));
        }
        None
    }

    /// Whether the datagram is complete: a terminal fragment has arrived and
    /// walking from offset 0, each stored fragment ends exactly where the
    /// next begins, up to the terminal offset.
    pub fn has_all_neccessary_fragments(&self) -> (r: bool)
        requires
            self.wf(),
        ensures
            r == self.is_complete(),
    {
        let t = match self.last_fragment_offset {
            None => {
                return false;
            },
            Some(t) => t,
        };
        let mut offset: u16 = 0;
        loop
            invariant
                self.wf(),
                self.terminal() == Some(t),
                covered_from(self.frags(), t, 0) == covered_from(self.frags(), t, offset as int),
            decreases 0x10000 - offset,
        {
            match self.get_fragment(offset) {
                None => {
                    return false;
                },
                Some(fragment) => {
                    if offset == t {
                        return true;
                    }
                    let l = fragment.len();
                    if l == 0 {
                        return false;
                    }
                    if l > 0xFFFF - offset as usize {
                        return false;
                    }
                    offset = offset + (l as u16);
                },
            }
        }
    }

    /// Reassembles the datagram: every stored payload, concatenated in
    /// ascending offset order.
    pub fn reassemble(&self) -> (r: Option<Vec<u8>>)
        requires
            self.wf(),
        ensures
            (r matches Some(v) && v@ == assembled(self.frags())),
    {
        let mut result: Vec<u8> = Vec::new();
        let mut i: usize = 0;
        while i < self.fragments.len()
            invariant
                self.wf(),
                i <= self.fragments@.len(),
                result@ == concat_payloads(self.entries().take(i as int)),
            decreases self.fragments@.len() - i,
        {
            let fragment = &self.fragments[i].1;
            let ghost base = result@;
            proof {
                assert(base + fragment@.take(0) =~= base);
            }
            let mut j: usize = 0;
            while j < fragment.len()
                invariant
                    j <= fragment@.len(),
                    result@ == base + fragment@.take(j as int),
                decreases fragment@.len() - j,
            {
                result.push(fragment[j]);
                proof {
                    assert(base + fragment@.take(j as int + 1) =~= (base + fragment@.take(
                        j as int,
                    )).push(fragment@[j as int]));
                }
                j += 1;
            }
            proof {
                let e = self.entries();
                assert(fragment@.take(fragment@.len() as int) =~= fragment@);
                assert(e[i as int].1 == fragment@);
                assert(e.take(i as int + 1).drop_last() =~= e.take(i as int));
                assert(e.take(i as int + 1).last() == e[i as int]);
                assert(result@ == concat_payloads(e.take(i as int + 1)));
            }
            i += 1;
        }
        proof {
            assert(self.entries().take(self.entries().len() as int) =~= self.entries());
            lemma_assembled(self.entries());
        }
        Some(result)
    }
}

// ---------------------------------------------------------------------------
// Reassembly engine.
// ---------------------------------------------------------------------------

/// The fragment map of the store in flight for `id`, or the empty map when
/// none is: a completed or never-seen identifier starts from nothing.
pub open spec fn frags_for(stores: Map<u16, Reassembler>, id: u16) -> Map<u16, Seq<u8>> {
    if stores.dom().contains(id) {
        stores[id].frags()
    } else {
        Map::empty()
    }
}

/// The terminal offset recorded for `id`, if a store is in flight and has
/// seen its terminal fragment.
pub open spec fn terminal_for(stores: Map<u16, Reassembler>, id: u16) -> Option<u16> {
    if stores.dom().contains(id) {
        stores[id].terminal()
    } else {
        None
    }
}

/// Reassembly engine: routes each fragment to the store for its datagram
/// identifier, and emits each datagram's bytes exactly once, the instant the
/// fragment that completes it arrives.
pub struct Assorter {
    store: Vec<(u16, Reassembler)>,
}

impl Assorter {
    /// The stores in flight, per datagram identifier.
    pub closed spec fn stores(self) -> Map<u16, Reassembler> {
        entries_map(self.store@)
    }

    /// One store per identifier, each sorted by offset and still incomplete.
    pub closed spec fn wf(self) -> bool {
        &&& keys_distinct(self.store@)
        &&& forall|i: int|
            0 <= i < self.store@.len() ==> (#[trigger] self.store@[i]).1.wf() && !self.store@[
                i
            ].1.is_complete()
    }

    /// An identifier in flight means "incomplete": every store the engine
    /// holds is well formed and not yet complete, so a datagram is emitted at
    /// most once and its state is discarded the moment it completes.
    pub proof fn lemma_in_flight_incomplete(self)
        requires
            self.wf(),
        ensures
            forall|id: u16| #[trigger]
                self.stores().dom().contains(id) ==> self.stores()[id].wf()
                    && !self.stores()[id].is_complete(),
    {
        lemma_entries_map_dom(self.store@);
        assert forall|id: u16| #[trigger]
            self.stores().dom().contains(id) implies self.stores()[id].wf()
            && !self.stores()[id].is_complete() by {
            let i = choose|i: int| 0 <= i < self.store@.len() && self.store@[i].0 == id;
            lemma_entries_map_index(self.store@, i);
        }
    }

    /// A fresh engine with no datagrams in flight.
    pub fn new() -> (r: Assorter)
        ensures
            r.wf(),
            r.stores() == Map::<u16, Reassembler>::empty(),
    {
        let r = Assorter { store: Vec::new() };
        proof {
            assert(r.store@.len() == 0);
        }
        r
    }

    /// Decodes one fragment and feeds it to the store for its identifier,
    /// creating the store on first sight. If the fragment completes its
    /// datagram, the datagram's bytes are returned with the decoded header
    /// and the store is discarded; otherwise the datagram stays pending and
    /// nothing is returned. Stores of other identifiers are untouched.
    pub fn add_and_check(&mut self, packet: &[u8]) -> (r: Option<(Header, Vec<u8>)>)
        requires
            old(self).wf(),
            packet@.len() >= HEADER_LEN,
        ensures
            final(self).wf(),
            ({
                let h = header_of(packet@);
                let new_frags = frags_for(old(self).stores(), h.id).insert(
                    h.fragment_offset,
                    packet@.skip(HEADER_LEN as int),
                );
                let new_terminal = if h.is_last() {
                    Some(h.fragment_offset)
                } else {
                    terminal_for(old(self).stores(), h.id)
                };
                &&& (if complete(new_frags, new_terminal) {
                    &&& r matches Some(p) && p.0 == h && p.1@ == assembled(new_frags)
                    &&& !final(self).stores().dom().contains(h.id)
                } else {
                    &&& r is None
                    &&& final(self).stores().dom().contains(h.id)
                    &&& final(self).stores()[h.id].frags() == new_frags
                    &&& final(self).stores()[h.id].terminal() == new_terminal
                })
                &&& forall|other: u16|
                    other != h.id ==> #[trigger] final(self).stores().dom().contains(other)
                        == old(self).stores().dom().contains(other)
                &&& forall|other: u16|
                    other != h.id && old(self).stores().dom().contains(other)
                        ==> #[trigger] final(self).stores()[other] == old(self).stores()[other]
            }),
    {
        let (header, payload) = parse(packet);
        let payload_vec = slice_to_vec(payload);
        let id = header.id;
        let ghost s0 = self.store@;
        let mut i: usize = 0;
        while i < self.store.len() && self.store[i].0 != id
            invariant
                self.store@ == s0,
                i <= s0.len(),
                forall|j: int| 0 <= j < i ==> (#[trigger] s0[j]).0 != id,
            decreases s0.len() - i,
        {
            i += 1;
        }
        let mut reasm: Reassembler;
        if i < self.store.len() {
            proof {
                assert(s0[i as int].0 == id);
                assert(keys_distinct(s0));
                lemma_entries_map_index(s0, i as int);
                lemma_entries_map_remove_at(s0, i as int);
            }
            let entry = self.store.remove(i);
            reasm = entry.1;
            proof {
                assert(reasm == old(self).stores()[id]);
                assert(self.stores() =~= old(self).stores().remove(id));
                assert(keys_distinct(self.store@)) by {
                    assert(forall|j: int|
                        0 <= j < self.store@.len() ==> (#[trigger] self.store@[j]) == (if j
                            < i as int {
                            s0[j]
                        } else {
                            s0[j + 1]
                        }));
                }
                assert(!has_key(self.store@, id)) by {
                    if has_key(self.store@, id) {
                        let j = choose|j: int|
                            0 <= j < self.store@.len() && self.store@[j].0 == id;
                        if j < i as int {
                            assert(s0[j].0 == id);
                        } else {
                            assert(s0[j + 1].0 == id);
                        }
                    }
                }
            }
        } else {
            reasm = Reassembler::new();
            proof {
                lemma_entries_map_dom(s0);
                assert(!has_key(s0, id));
                assert(!old(self).stores().dom().contains(id));
            }
        }
        let ghost removed = self.store@;
        proof {
            assert(reasm.wf() && !reasm.is_complete()) by {
                if i < s0.len() {
                    assert(s0[i as int].1 == reasm);
                }
            }
            assert(reasm.frags() == frags_for(old(self).stores(), id));
            assert(reasm.terminal() == terminal_for(old(self).stores(), id));
            assert(forall|j: int|
                0 <= j < removed.len() ==> ((#[trigger] removed[j]) == s0[j] || removed[j] == s0[
                    j + 1
                ]));
        }
        reasm.insert(&header, payload_vec);
        if reasm.has_all_neccessary_fragments() {
            let bytes = match reasm.reassemble() {
                Some(b) => b,
                None => {
                    proof {
                        assert(false);
                    }
                    Vec::new()
                },
            };
            proof {
                lemma_entries_map_dom(self.store@);
                if i < s0.len() {
                } else {
                    assert(self.stores() =~= old(self).stores().remove(id));
                }
                assert(!self.stores().dom().contains(id));
            }
            Some((header, bytes))
        } else {
            self.store.push((id, reasm));
            proof {
                assert(self.store@.drop_last() =~= removed);
                assert(self.store@.last() == (id, reasm));
                assert(self.stores() == entries_map(removed).insert(id, reasm));
                assert(keys_distinct(self.store@)) by {
                    assert forall|a: int, b: int|
                        0 <= a < b < self.store@.len() implies self.store@[a].0 != self.store@[
                        b
                    ].0 by {
                        if b == self.store@.len() - 1 {
                            assert(self.store@[a] == removed[a]);
                            assert(!has_key(removed, id) || !(removed[a].0 == id));
                            if removed[a].0 == id {
                                assert(has_key(removed, id));
                            }
                        } else {
                            assert(self.store@[a] == removed[a]);
                            assert(self.store@[b] == removed[b]);
                        }
                    }
                }
                assert(forall|j: int|
                    0 <= j < removed.len() ==> (#[trigger] self.store@[j]) == removed[j]);
                lemma_entries_map_dom(removed);
            }
            None
        }
    }
}

// ---------------------------------------------------------------------------
// Reassembly laws.
// ---------------------------------------------------------------------------

/// A lone fragment at offset zero marked as last: the datagram is complete
/// the moment it arrives, and reassembles to exactly that payload.
pub proof fn lemma_single_fragment(p: Seq<u8>)
    ensures
        complete(Map::<u16, Seq<u8>>::empty().insert(0, p), Some(0u16)),
        assembled(Map::<u16, Seq<u8>>::empty().insert(0, p)) == p,
{
    reveal_with_fuel(entries_map, 3);
    reveal_with_fuel(concat_payloads, 3);
    let m = Map::<u16, Seq<u8>>::empty().insert(0u16, p);
    assert(covered_from(m, 0, 0));
    let s = seq![(0u16, p)];
    assert(keys_ascending(s));
    assert(s.drop_last() =~= Seq::<(u16, Seq<u8>)>::empty());
    assert(entries_map(s) =~= m);
    lemma_assembled(s);
    assert(concat_payloads(s) == concat_payloads(s.drop_last()) + p);
    assert(Seq::<u8>::empty() + p =~= p);
}

/// A first fragment at offset zero with more to follow, then a terminal
/// fragment starting exactly where the first ends: the datagram is
/// incomplete while the terminal fragment is missing, complete the moment it
/// arrives, and reassembles to the two payloads in order.
pub proof fn lemma_two_fragments(p1: Seq<u8>, p2: Seq<u8>, t: u16)
    requires
        0 < p1.len(),
        t == p1.len(),
    ensures
        !complete(Map::<u16, Seq<u8>>::empty().insert(0, p1), None),
        complete(Map::<u16, Seq<u8>>::empty().insert(0, p1).insert(t, p2), Some(t)),
        assembled(Map::<u16, Seq<u8>>::empty().insert(0, p1).insert(t, p2)) == p1 + p2,
{
    reveal_with_fuel(entries_map, 3);
    reveal_with_fuel(concat_payloads, 3);
    let m = Map::<u16, Seq<u8>>::empty().insert(0u16, p1).insert(t, p2);
    assert(m[0u16] == p1);
    assert(covered_from(m, t, t as int));
    assert(covered_from(m, t, 0));
    let s = seq![(0u16, p1), (t, p2)];
    assert(keys_ascending(s));
    assert(s.drop_last() =~= seq![(0u16, p1)]);
    assert(s.drop_last().drop_last() =~= Seq::<(u16, Seq<u8>)>::empty());
    assert(entries_map(s) =~= m);
    lemma_assembled(s);
    assert(concat_payloads(s) =~= p1 + p2);
}

/// Arrival order does not matter: fragments at two distinct offsets leave
/// the same fragment map whichever arrives first, and with it the same
/// completeness outcome and the same reassembled bytes.
pub proof fn lemma_arrival_order_irrelevant(
    m: Map<u16, Seq<u8>>,
    o1: u16,
    p1: Seq<u8>,
    o2: u16,
    p2: Seq<u8>,
)
    requires
        o1 != o2,
    ensures
        m.insert(o1, p1).insert(o2, p2) == m.insert(o2, p2).insert(o1, p1),
{
    assert(m.insert(o1, p1).insert(o2, p2) =~= m.insert(o2, p2).insert(o1, p1));
}

/// The reassembled bytes are a function of the fragment set alone: any two
/// stores sorted by offset that spell out the same fragment map concatenate
/// to the same bytes.
pub proof fn lemma_reassembly_deterministic(s1: Seq<(u16, Seq<u8>)>, s2: Seq<(u16, Seq<u8>)>)
    requires
        keys_ascending(s1),
        keys_ascending(s2),
        entries_map(s1) == entries_map(s2),
    ensures
        concat_payloads(s1) == concat_payloads(s2),
{
    lemma_sorted_by_map(s1, s2);
}

/// Receiving the terminal fragment twice changes nothing: the repeated
/// insert leaves the fragment map, and with it the completeness outcome and
/// the reassembled bytes, exactly as after the first arrival.
pub proof fn lemma_terminal_idempotent(m: Map<u16, Seq<u8>>, t: u16, p: Seq<u8>)
    ensures
        m.insert(t, p).insert(t, p) == m.insert(t, p),
        complete(m.insert(t, p).insert(t, p), Some(t)) == complete(m.insert(t, p), Some(t)),
        assembled(m.insert(t, p).insert(t, p)) == assembled(m.insert(t, p)),
{
    assert(m.insert(t, p).insert(t, p) =~= m.insert(t, p));
}

} // verus!
