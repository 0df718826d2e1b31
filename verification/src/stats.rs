//! The traffic-statistics engine: decodes one value from each captured
//! packet payload, keys a frequency table by the value's canonical rendered
//! form, and reports a bounded ranked view over the table.
use crate::decoder::{spec_decode, Decoder};
use crate::value::render_bytes;
use vstd::map::*;
use vstd::prelude::*;
use vstd::utf8::encode_utf8;

verus! {

broadcast use
    vstd::std_specs::vec::group_vec_axioms,
    vstd::seq::group_seq_axioms,
    vstd::utf8::encode_utf8_decode_utf8;

#[verifier::external_type_specification]
#[verifier::external_body]
pub struct ExInstant(std::time::Instant);

/// Relies on std::time::Instant::now: an opaque timestamp of the present
/// moment; nothing is assumed of its value.
#[verifier::external_body]
fn instant_now() -> std::time::Instant {
    std::time::Instant::now()
}

/// What etherparse finds as the payload of an Ethernet frame: a function of
/// the frame bytes alone.
pub uninterp spec fn ether_payload(frame: Seq<u8>) -> Option<Seq<u8>>;

/// Relies on etherparse::SlicedPacket::from_ethernet: it slices the
/// Ethernet, IP and transport headers off a frame and exposes the remaining
/// bytes as the payload, or fails on a malformed frame.
#[verifier::external_body]
fn slice_ethernet_payload(frame: &[u8]) -> (r: Option<Vec<u8>>)
    ensures
        match r {
            Some(p) => ether_payload(frame@) == Some(p@),
            None => ether_payload(frame@) is None,
        },
{
    match etherparse::SlicedPacket::from_ethernet(frame) {
        Ok(s) => Some(s.payload.to_vec()),
        Err(_) => None,
    }
}

/// The rendered-form key of a table entry, as UTF-8 bytes.
pub open spec fn entry_key(e: (String, u64)) -> Seq<u8> {
    encode_utf8(e.0@)
}

/// Whether some entry of `q` carries the key `k`.
pub open spec fn has_key(q: Seq<(String, u64)>, k: Seq<u8>) -> bool {
    exists|i: int| 0 <= i < q.len() && entry_key(#[trigger] q[i]) == k
}


/// Whether `e` is one of the entries of `q`.
pub open spec fn in_entries(q: Seq<(String, u64)>, e: (String, u64)) -> bool {
    exists|g: int| 0 <= g < q.len() && q[g] == e
}

/// The frequency table: a mapping from a canonical rendered key to a
/// monotonically increasing occurrence count. Entries are created on first
/// occurrence, updated on every later one, and never removed.
pub struct Stats {
    count: u64,
    started: std::time::Instant,
    queries: Vec<(String, u64)>,
}


/// Bumping an existing entry: moving it to the back with its count
/// incremented leaves a table equal to the old one with that key bumped.
proof fn lemma_table_bump(s0: Stats, s1: Stats, i: int, kb: Seq<u8>)
    requires
        s0.wf(),
        s0.count < u64::MAX,
        0 <= i < s0.queries@.len(),
        entry_key(s0.queries@[i]) == kb,
        entry_key(s1.queries@[s1.queries@.len() - 1]) == kb,
        s1.queries@ == s0.queries@.remove(i).push(
            (s1.queries@[s1.queries@.len() - 1].0, (s0.queries@[i].1 + 1) as u64),
        ),
        s1.count == s0.count + 1,
    ensures
        s1.wf(),
        s1.table() == s0.table().insert(kb, (s0.table()[kb] + 1) as u64),
{
    let q0 = s0.queries@;
    let q1 = s1.queries@;
    s0.lemma_table_at(i);
    assert forall|a: int, b: int|
        0 <= a < b < q1.len() implies entry_key(#[trigger] q1[a]) != entry_key(
        #[trigger] q1[b],
    ) by {
        let a0 = if a < i { a } else { a + 1 };
        assert(q1[a] == q0[a0]);
        if b < q1.len() - 1 {
            let b0 = if b < i { b } else { b + 1 };
            assert(q1[b] == q0[b0]);
        } else {
            assert(entry_key(q0[a0]) != entry_key(q0[i]));
        }
    }
    assert(s1.wf());
    let t2 = s0.table().insert(kb, (s0.table()[kb] + 1) as u64);
    assert forall|k: Seq<u8>| #![trigger s1.table().dom().contains(k)]
        s1.table().dom().contains(k) == t2.dom().contains(k) && (s1.table().dom().contains(k)
        ==> s1.table()[k] == t2[k]) by {
            if k == kb {
                assert(has_key(q1, k));
                s1.lemma_table_at(q1.len() - 1);
            } else {
                if has_key(q0, k) {
                    let a0 = choose|a: int| 0 <= a < q0.len() && entry_key(#[trigger] q0[a]) == k;
                    let a1 = if a0 < i { a0 } else { a0 - 1 };
                    assert(a0 != i);
                    assert(q1[a1] == q0[a0]);
                    s0.lemma_table_at(a0);
                    s1.lemma_table_at(a1);
                } else {
                    if has_key(q1, k) {
                        let a1 = choose|a: int| 0 <= a < q1.len() && entry_key(#[trigger] q1[a]) == k;
                        let a0 = if a1 < i { a1 } else { a1 + 1 };
                        assert(a1 != q1.len() - 1);
                        assert(q1[a1] == q0[a0]);
                        assert(has_key(q0, k));
                    }
                }
            }
        }
    assert(s1.table().dom() =~= t2.dom());
    assert(s1.table() =~= t2);
}

/// Adding a first occurrence: pushing a fresh key with count one leaves a
/// table equal to the old one with that key at one.
proof fn lemma_table_fresh(s0: Stats, s1: Stats, kb: Seq<u8>)
    requires
        s0.wf(),
        s0.count < u64::MAX,
        !has_key(s0.queries@, kb),
        entry_key(s1.queries@[s1.queries@.len() - 1]) == kb,
        s1.queries@ == s0.queries@.push((s1.queries@[s1.queries@.len() - 1].0, 1u64)),
        s1.count == s0.count + 1,
    ensures
        s1.wf(),
        !s0.table().contains_key(kb),
        s1.table() == s0.table().insert(kb, 1u64),
{
    let q0 = s0.queries@;
    let q1 = s1.queries@;
    assert forall|a: int, b: int|
        0 <= a < b < q1.len() implies entry_key(#[trigger] q1[a]) != entry_key(
        #[trigger] q1[b],
    ) by {
        if b == q1.len() - 1 {
            assert(q1[a] == q0[a]);
        } else {
            assert(q1[a] == q0[a] && q1[b] == q0[b]);
        }
    }
    assert(s1.wf());
    let t2 = s0.table().insert(kb, 1u64);
    assert forall|k: Seq<u8>| #![trigger s1.table().dom().contains(k)]
        s1.table().dom().contains(k) == t2.dom().contains(k) && (s1.table().dom().contains(k)
        ==> s1.table()[k] == t2[k]) by {
            if k == kb {
                assert(has_key(q1, k));
                s1.lemma_table_at(q1.len() - 1);
            } else {
                if has_key(q0, k) {
                    let a0 = choose|a: int| 0 <= a < q0.len() && entry_key(#[trigger] q0[a]) == k;
                    assert(q1[a0] == q0[a0]);
                    s0.lemma_table_at(a0);
                    s1.lemma_table_at(a0);
                } else {
                    if has_key(q1, k) {
                        let a1 = choose|a: int| 0 <= a < q1.len() && entry_key(#[trigger] q1[a]) == k;
                        assert(a1 != q1.len() - 1);
                        assert(q1[a1] == q0[a1]);
                        assert(has_key(q0, k));
                    }
                }
            }
        }
    assert(s1.table().dom() =~= t2.dom());
    assert(s1.table() =~= t2);
}

impl Stats {
    /// Keys are unique, and no single count exceeds the total.
    pub closed spec fn wf(&self) -> bool {
        &&& forall|i: int, j: int|
            0 <= i < j < self.queries@.len() ==> entry_key(#[trigger] self.queries@[i])
                != entry_key(#[trigger] self.queries@[j])
        &&& forall|i: int|
            0 <= i < self.queries@.len() ==> (#[trigger] self.queries@[i]).1 <= self.count
    }

    /// The total number of successfully decoded queries.
    pub closed spec fn total(&self) -> u64 {
        self.count
    }

    /// How many distinct keys the table holds.
    pub closed spec fn entry_count(&self) -> nat {
        self.queries@.len()
    }

    /// The frequency table as a map from rendered-key bytes to counts.
    pub closed spec fn table(&self) -> Map<Seq<u8>, u64> {
        Map::new(
            |k: Seq<u8>| has_key(self.queries@, k),
            |k: Seq<u8>|
                {
                    let i = choose|i: int|
                        0 <= i < self.queries@.len() && entry_key(#[trigger] self.queries@[i])
                            == k;
                    self.queries@[i].1
                },
        )
    }

    /// With unique keys, any entry carrying a key gives that key's count.
    proof fn lemma_table_at(&self, j: int)
        requires
            self.wf(),
            0 <= j < self.queries@.len(),
        ensures
            self.table().contains_key(entry_key(self.queries@[j])),
            self.table()[entry_key(self.queries@[j])] == self.queries@[j].1,
    {
        let k = entry_key(self.queries@[j]);
        let i = choose|i: int|
            0 <= i < self.queries@.len() && entry_key(#[trigger] self.queries@[i]) == k;
        if i != j {
            assert(entry_key(self.queries@[i]) != entry_key(self.queries@[j]));
        }
    }

    /// A fresh statistics table: no queries seen, started now.
    pub fn new() -> (r: Stats)
        ensures
            r.wf(),
            r.total() == 0,
            r.entry_count() == 0,
            r.table() =~= Map::<Seq<u8>, u64>::empty(),
    {
        Stats { count: 0, started: instant_now(), queries: Vec::new() }
    }

    /// The total number of successfully decoded queries so far.
    pub fn count(&self) -> (r: u64)
        ensures
            r == self.total(),
    {
        self.count
    }

    /// When this table started accumulating.
    pub fn started_at(&self) -> std::time::Instant {
        self.started
    }

    /// Feeds one captured payload: decodes one value from a fresh decoder;
    /// on success bumps the value's rendered key and the total count, and on
    /// failure changes nothing (the packet is skipped).
    pub fn accumulate_packet(&mut self, payload: &[u8])
        requires
            old(self).wf(),
            old(self).total() < u64::MAX,
        ensures
            final(self).wf(),
            match spec_decode(payload@) {
                Some((m, rest)) => {
                    let k = render_bytes(m);
                    let c: u64 = if old(self).table().contains_key(k) {
                        old(self).table()[k]
                    } else {
                        0u64
                    };
                    &&& final(self).total() == old(self).total() + 1
                    &&& final(self).table() == old(self).table().insert(k, (c + 1) as u64)
                },
                None => final(self).total() == old(self).total() && final(self).table() == old(
                    self,
                ).table() && final(self).entry_count() == old(self).entry_count(),
            },
    {
        let mut decoder = Decoder::new(vstd::slice::slice_to_vec(payload));
        match decoder.decode_one() {
            Ok(value) => {
                let key = value.abuse();
                let ghost kb = render_bytes(value@);
                proof {
                    assert(encode_utf8(key@) == kb);
                }
                match self.find_key(&key) {
                    Some(i) => {
                        let ghost s0 = *self;
                        proof {
                            self.lemma_table_at(i as int);
                        }
                        let entry = self.queries.remove(i);
                        let c = entry.1;
                        self.queries.push((key, c + 1));
                        self.count = self.count + 1;
                        proof {
                            lemma_table_bump(s0, *self, i as int, kb);
                        }
                    },
                    None => {
                        let ghost s0 = *self;
                        self.queries.push((key, 1));
                        self.count = self.count + 1;
                        proof {
                            lemma_table_fresh(s0, *self, kb);
                        }
                    },
                }
            },
            Err(_) => {},
        }
    }

    /// Feeds one raw Ethernet frame: slices the headers off and accumulates
    /// the payload; a frame that does not parse is skipped.
    pub fn accumulate_ethernet(&mut self, frame: &[u8])
        requires
            old(self).wf(),
            old(self).total() < u64::MAX,
        ensures
            final(self).wf(),
            match ether_payload(frame@) {
                Some(p) => match spec_decode(p) {
                    Some((m, rest)) => {
                        let k = render_bytes(m);
                        let c: u64 = if old(self).table().contains_key(k) {
                            old(self).table()[k]
                        } else {
                            0u64
                        };
                        &&& final(self).total() == old(self).total() + 1
                        &&& final(self).table() == old(self).table().insert(k, (c + 1) as u64)
                    },
                    None => final(self).total() == old(self).total() && final(self).table()
                        == old(self).table(),
                },
                None => final(self).total() == old(self).total() && final(self).table() == old(
                    self,
                ).table(),
            },
    {
        match slice_ethernet_payload(frame) {
            Some(payload) => self.accumulate_packet(payload.as_slice()),
            None => {},
        }
    }


    /// The ranked report: up to ten table entries with the highest counts,
    /// in descending count order, keys distinct; every table entry left out
    /// of the report counts no more than the report's last entry. Ties are
    /// broken arbitrarily.
    pub fn top_k(&self) -> (r: Vec<(String, u64)>)
        requires
            self.wf(),
        ensures
            r@.len() == if self.entry_count() < 10 {
                self.entry_count()
            } else {
                10nat
            },
            forall|a: int|
                0 <= a < r@.len() ==> self.table().contains_key(entry_key(#[trigger] r@[a]))
                    && self.table()[entry_key(r@[a])] == r@[a].1,
            forall|a: int, b: int|
                0 <= a < b < r@.len() ==> (#[trigger] r@[a]).1 >= (#[trigger] r@[b]).1,
            forall|a: int, b: int|
                0 <= a < b < r@.len() ==> entry_key(#[trigger] r@[a]) != entry_key(
                    #[trigger] r@[b],
                ),
            forall|k: Seq<u8>|
                #![trigger self.table().dom().contains(k)]
                r@.len() > 0 && self.table().dom().contains(k) && !has_key(r@, k)
                    ==> self.table()[k] <= r@[r@.len() - 1].1,
    {
        let ghost q = self.queries@;
        let mut work: Vec<(String, u64)> = Vec::new();
        let mut i: usize = 0;
        while i < self.queries.len()
            invariant
                self.wf(),
                i <= self.queries@.len(),
                work@.len() == i,
                forall|a: int| 0 <= a < i ==> #[trigger] work@[a] == self.queries@[a],
            decreases self.queries@.len() - i,
        {
            let e = &self.queries[i];
            let cnt = e.1;
            work.push((e.0.clone(), cnt));
            i = i + 1;
        }
        proof {
            assert(work@ =~= q);
        }
        let mut out: Vec<(String, u64)> = Vec::new();
        while out.len() < 10 && work.len() > 0
            invariant
                self.wf(),
                q == self.queries@,
                out@.len() + work@.len() == q.len(),
                out@.len() <= 10,
                forall|a: int| 0 <= a < out@.len() ==> in_entries(q, #[trigger] out@[a]),
                forall|a: int| 0 <= a < work@.len() ==> in_entries(q, #[trigger] work@[a]),
                forall|g: int|
                    0 <= g < q.len() ==> has_key(out@, entry_key(#[trigger] q[g])) || in_entries(
                        work@,
                        q[g],
                    ),
                forall|a: int, b: int|
                    0 <= a < b < out@.len() ==> (#[trigger] out@[a]).1 >= (#[trigger] out@[b]).1,
                forall|a: int, b: int|
                    0 <= a < b < out@.len() ==> entry_key(#[trigger] out@[a]) != entry_key(
                        #[trigger] out@[b],
                    ),
                forall|a: int, b: int|
                    0 <= a < b < work@.len() ==> entry_key(#[trigger] work@[a]) != entry_key(
                        #[trigger] work@[b],
                    ),
                forall|a: int, b: int|
                    0 <= a < out@.len() && 0 <= b < work@.len() ==> entry_key(#[trigger] out@[a])
                        != entry_key(#[trigger] work@[b]),
                out@.len() > 0 ==> forall|a: int|
                    0 <= a < work@.len() ==> (#[trigger] work@[a]).1 <= out@[out@.len() - 1].1,
            decreases work@.len(),
        {
            let mut best: usize = 0;
            let mut m: usize = 1;
            while m < work.len()
                invariant
                    work@.len() > 0,
                    best < m <= work@.len(),
                    forall|x: int| 0 <= x < m ==> (#[trigger] work@[x]).1 <= work@[best as int].1,
                decreases work@.len() - m,
            {
                if work[m].1 > work[best].1 {
                    best = m;
                }
                m = m + 1;
            }
            let ghost w0 = work@;
            let ghost o0 = out@;
            let e = work.remove(best);
            out.push(e);
            proof {
                assert(out@[out@.len() - 1] == w0[best as int]);
                assert forall|g: int|
                    0 <= g < q.len() implies has_key(out@, entry_key(#[trigger] q[g]))
                    || in_entries(work@, q[g]) by {
                    if !has_key(o0, entry_key(q[g])) && in_entries(w0, q[g]) {
                        let a = choose|a: int| 0 <= a < w0.len() && w0[a] == q[g];
                        if a == best as int {
                            assert(out@[out@.len() - 1] == q[g]);
                            assert(has_key(out@, entry_key(q[g])));
                        } else {
                            let a2 = if a < best as int {
                                a
                            } else {
                                a - 1
                            };
                            assert(work@[a2] == w0[a]);
                            assert(in_entries(work@, q[g]));
                        }
                    } else {
                        if has_key(o0, entry_key(q[g])) {
                            let a = choose|a: int|
                                0 <= a < o0.len() && entry_key(#[trigger] o0[a]) == entry_key(
                                    q[g],
                                );
                            assert(out@[a] == o0[a]);
                            assert(has_key(out@, entry_key(q[g])));
                        }
                    }
                }
                assert forall|a: int| 0 <= a < work@.len() implies in_entries(
                    q,
                    #[trigger] work@[a],
                ) by {
                    let a0 = if a < best as int {
                        a
                    } else {
                        a + 1
                    };
                    assert(work@[a] == w0[a0]);
                }
                assert forall|a: int, b: int|
                    0 <= a < b < work@.len() implies entry_key(#[trigger] work@[a]) != entry_key(
                    #[trigger] work@[b],
                ) by {
                    let a0 = if a < best as int {
                        a
                    } else {
                        a + 1
                    };
                    let b0 = if b < best as int {
                        b
                    } else {
                        b + 1
                    };
                    assert(work@[a] == w0[a0] && work@[b] == w0[b0]);
                }
                assert forall|a: int, b: int|
                    0 <= a < out@.len() && 0 <= b < work@.len() implies entry_key(
                    #[trigger] out@[a],
                ) != entry_key(#[trigger] work@[b]) by {
                    let b0 = if b < best as int {
                        b
                    } else {
                        b + 1
                    };
                    assert(work@[b] == w0[b0]);
                    if a < out@.len() - 1 {
                        assert(out@[a] == o0[a]);
                    } else {
                        assert(out@[a] == w0[best as int]);
                        assert(b0 != best as int);
                    }
                }
                assert forall|a: int|
                    0 <= a < work@.len() implies (#[trigger] work@[a]).1 <= out@[out@.len()
                    - 1].1 by {
                    let a0 = if a < best as int {
                        a
                    } else {
                        a + 1
                    };
                    assert(work@[a] == w0[a0]);
                    assert(w0[a0].1 <= w0[best as int].1);
                }
            }
        }
        proof {
            assert forall|a: int|
                0 <= a < out@.len() implies self.table().contains_key(
                entry_key(#[trigger] out@[a]),
            ) && self.table()[entry_key(out@[a])] == out@[a].1 by {
                let g = choose|g: int| 0 <= g < q.len() && q[g] == out@[a];
                self.lemma_table_at(g);
            }
            assert forall|k: Seq<u8>|
                #![trigger self.table().dom().contains(k)]
                out@.len() > 0 && self.table().dom().contains(k) && !has_key(out@, k) implies
            self.table()[k] <= out@[out@.len() - 1].1 by {
                assert(has_key(q, k));
                let g = choose|g: int| 0 <= g < q.len() && entry_key(#[trigger] q[g]) == k;
                self.lemma_table_at(g);
                assert(in_entries(work@, q[g]));
                let a = choose|a: int| 0 <= a < work@.len() && work@[a] == q[g];
                assert(work@[a].1 <= out@[out@.len() - 1].1);
            }
        }
        out
    }

    /// Looks a rendered key up in the table.
    fn find_key(&self, key: &String) -> (r: Option<usize>)
        ensures
            match r {
                Some(i) => 0 <= i < self.queries@.len() && entry_key(self.queries@[i as int])
                    == encode_utf8(key@),
                None => !has_key(self.queries@, encode_utf8(key@)),
            },
    {
        let mut i: usize = 0;
        while i < self.queries.len()
            invariant
                i <= self.queries@.len(),
                forall|j: int|
                    0 <= j < i ==> entry_key(#[trigger] self.queries@[j]) != encode_utf8(key@),
            decreases self.queries@.len() - i,
        {
            if bytes_eq(self.queries[i].0.as_str().as_bytes(), key.as_str().as_bytes()) {
                return Some(i);
            }
            i = i + 1;
        }
        None
    }
}

/// Byte-for-byte equality of two slices.
fn bytes_eq(a: &[u8], b: &[u8]) -> (r: bool)
    ensures
        r == (a@ == b@),
{
    if a.len() != b.len() {
        proof {
            assert(a@ != b@);
        }
        return false;
    }
    let mut i: usize = 0;
    while i < a.len()
        invariant
            i <= a@.len(),
            a@.len() == b@.len(),
            forall|j: int| 0 <= j < i ==> a@[j] == b@[j],
        decreases a@.len() - i,
    {
        if a[i] != b[i] {
            proof {
                assert(a@[i as int] != b@[i as int]);
            }
            return false;
        }
        i = i + 1;
    }
    proof {
        assert(a@ =~= b@);
    }
    true
}

} // verus!
