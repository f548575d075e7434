use vstd::prelude::*;

use crate::time::Timestamp;
use vstd::multiset::Multiset;

verus! {

/// One buffered line: its timestamp key, its position in the input, and
/// its raw text.
#[derive(Debug, Clone)]
pub struct WindowEntry {
    pub timestamp: Timestamp,
    pub line_index: usize,
    pub line: Vec<u8>,
}

/// The timestamp keys of a buffer, in buffer order.
pub open spec fn keys_of(s: Seq<WindowEntry>) -> Seq<i64> {
    s.map_values(|e: WindowEntry| e.timestamp.nanos)
}

pub open spec fn sorted_keys(s: Seq<i64>) -> bool {
    forall|i: int, j: int| 0 <= i < j < s.len() ==> s[i] <= s[j]
}

/// Where a new entry with key `k` goes: after every entry whose key is at
/// most `k`, so entries with equal timestamps keep arrival order.
pub open spec fn insert_pos(s: Seq<i64>, k: i64) -> int
    decreases s.len(),
{
    if s.len() == 0 {
        0
    } else if s.last() <= k {
        s.len() as int
    } else {
        insert_pos(s.drop_last(), k)
    }
}

/// One buffered insertion.
pub open spec fn window_insert(s: Seq<WindowEntry>, e: WindowEntry) -> Seq<WindowEntry> {
    s.insert(insert_pos(keys_of(s), e.timestamp.nanos), e)
}

/// The buffer that results from pushing `entries`, in order, into an
/// empty unbounded buffer.
pub open spec fn fill(entries: Seq<WindowEntry>) -> Seq<WindowEntry>
    decreases entries.len(),
{
    if entries.len() == 0 {
        Seq::empty()
    } else {
        window_insert(fill(entries.drop_last()), entries.last())
    }
}

proof fn lemma_insert_pos_bounds(s: Seq<i64>, k: i64)
    ensures
        0 <= insert_pos(s, k) <= s.len(),
    decreases s.len(),
{
    if s.len() > 0 && !(s.last() <= k) {
        lemma_insert_pos_bounds(s.drop_last(), k);
    }
}

/// Under sortedness the position splits the keys exactly: at-most-`k`
/// before it, greater after it.
proof fn lemma_insert_pos_sorted(s: Seq<i64>, k: i64)
    requires
        sorted_keys(s),
    ensures
        0 <= insert_pos(s, k) <= s.len(),
        forall|j: int| 0 <= j < insert_pos(s, k) ==> s[j] <= k,
        forall|j: int| insert_pos(s, k) <= j < s.len() ==> s[j] > k,
    decreases s.len(),
{
    lemma_insert_pos_bounds(s, k);
    if s.len() > 0 && !(s.last() <= k) {
        assert(forall|j: int| 0 <= j < s.len() - 1 ==> #[trigger] s.drop_last()[j] == s[j]);
        assert(sorted_keys(s.drop_last()));
        lemma_insert_pos_sorted(s.drop_last(), k);
        let p = insert_pos(s, k);
        assert forall|j: int| 0 <= j < p implies s[j] <= k by {
            assert(s.drop_last()[j] <= k);
        }
        assert forall|j: int| p <= j < s.len() implies s[j] > k by {
            if j < s.len() - 1 {
                assert(s.drop_last()[j] > k);
            }
        }
    } else if s.len() > 0 {
        assert(forall|j: int| 0 <= j < s.len() ==> #[trigger] s[j] <= s[s.len() - 1]);
    }
}

proof fn lemma_keys_insert(s: Seq<WindowEntry>, e: WindowEntry, p: int)
    requires
        0 <= p <= s.len(),
    ensures
        keys_of(s.insert(p, e)) == keys_of(s).insert(p, e.timestamp.nanos),
{
    assert(keys_of(s.insert(p, e)) =~= keys_of(s).insert(p, e.timestamp.nanos));
}

/// Law: a buffered insertion keeps the keys sorted.
pub proof fn lemma_window_insert_sorted(s: Seq<WindowEntry>, e: WindowEntry)
    requires
        sorted_keys(keys_of(s)),
    ensures
        sorted_keys(keys_of(window_insert(s, e))),
{
    let ks = keys_of(s);
    let k = e.timestamp.nanos;
    let p = insert_pos(ks, k);
    lemma_insert_pos_sorted(ks, k);
    lemma_keys_insert(s, e, p);
    let ks2 = ks.insert(p, k);
    assert forall|i: int, j: int| 0 <= i < j < ks2.len() implies ks2[i] <= ks2[j] by {
        if i < p {
            assert(ks2[i] == ks[i]);
        } else if i == p {
            assert(ks2[i] == k);
        } else {
            assert(ks2[i] == ks[i - 1]);
        }
        if j < p {
            assert(ks2[j] == ks[j]);
        } else if j == p {
            assert(ks2[j] == k);
        } else {
            assert(ks2[j] == ks[j - 1]);
        }
    }
}

/// Law: a buffered insertion adds exactly the new key to the bag of keys.
pub proof fn lemma_window_insert_multiset(s: Seq<WindowEntry>, e: WindowEntry)
    requires
        sorted_keys(keys_of(s)),
    ensures
        keys_of(window_insert(s, e)).to_multiset() == keys_of(s).to_multiset().insert(
            e.timestamp.nanos,
        ),
{
    let ks = keys_of(s);
    let k = e.timestamp.nanos;
    let p = insert_pos(ks, k);
    lemma_insert_pos_sorted(ks, k);
    lemma_keys_insert(s, e, p);
    ks.to_multiset_ensures();
    lemma_seq_insert_multiset(ks, p, k);
}

proof fn lemma_seq_insert_multiset<A>(s: Seq<A>, p: int, k: A)
    requires
        0 <= p <= s.len(),
    ensures
        s.insert(p, k).to_multiset() == s.to_multiset().insert(k),
{
    let t = s.insert(p, k);
    t.to_multiset_ensures();
    s.to_multiset_ensures();
    assert(t.remove(p) =~= s);
    assert(t[p] == k);
    assert(s.to_multiset() =~= t.to_multiset().remove(k));
    assert(t.contains(k));
    assert(t.to_multiset().count(k) > 0);
    assert(t.to_multiset() =~= s.to_multiset().insert(k));
}

/// Law: filling an empty buffer with any entries yields their timestamps
/// as a sorted rearrangement — so a drain releases exactly the input
/// timestamps, in ascending order.
pub proof fn lemma_fill_sorts(entries: Seq<WindowEntry>)
    ensures
        sorted_keys(keys_of(fill(entries))),
        keys_of(fill(entries)).to_multiset() == keys_of(entries).to_multiset(),
    decreases entries.len(),
{
    keys_of(entries).to_multiset_ensures();
    if entries.len() == 0 {
        assert(keys_of(fill(entries)) =~= Seq::<i64>::empty());
        assert(keys_of(entries) =~= Seq::<i64>::empty());
    } else {
        let head = entries.drop_last();
        lemma_fill_sorts(head);
        lemma_window_insert_sorted(fill(head), entries.last());
        lemma_window_insert_multiset(fill(head), entries.last());
        assert(keys_of(entries).drop_last() =~= keys_of(head));
        keys_of(entries).to_multiset_ensures();
        assert(keys_of(entries).to_multiset() == keys_of(head).to_multiset().insert(
            entries.last().timestamp.nanos,
        )) by {
            lemma_seq_insert_multiset(keys_of(head), keys_of(head).len() as int, entries.last().timestamp.nanos);
            assert(keys_of(head).insert(keys_of(head).len() as int, entries.last().timestamp.nanos)
                =~= keys_of(entries));
        }
    }
}

/// The reorder window: buffers scanned lines keyed by timestamp and
/// releases them in ascending order, tolerating out-of-order arrival up
/// to the window size.
pub struct ReorderWindow {
    entries: Vec<WindowEntry>,
    window_size: usize,
}

impl ReorderWindow {
    /// The buffered entries, in release order.
    pub closed spec fn buffered(&self) -> Seq<WindowEntry> {
        self.entries@
    }

    pub closed spec fn size_bound(&self) -> nat {
        self.window_size as nat
    }

    /// The buffer invariant: keys ascend.
    pub open spec fn wf(&self) -> bool {
        sorted_keys(keys_of(self.buffered()))
    }

    pub fn new(window_size: usize) -> (r: ReorderWindow)
        ensures
            r.wf(),
            r.buffered() == Seq::<WindowEntry>::empty(),
            r.size_bound() == window_size,
    {
        ReorderWindow { entries: Vec::new(), window_size }
    }

    pub fn len(&self) -> (r: usize)
        ensures
            r == self.buffered().len(),
    {
        self.entries.len()
    }

    /// Buffers one entry in timestamp order (arrival order among equal
    /// timestamps); once the buffer exceeds the window size, the
    /// earliest entry is released. The released entry's key is no
    /// greater than any key still buffered.
    pub fn push(&mut self, e: WindowEntry) -> (r: Option<WindowEntry>)
        requires
            old(self).wf(),
        ensures
            final(self).wf(),
            final(self).size_bound() == old(self).size_bound(),
            ({
                let inserted = window_insert(old(self).buffered(), e);
                if inserted.len() > old(self).size_bound() {
                    &&& r == Some(inserted[0])
                    &&& final(self).buffered() == inserted.drop_first()
                } else {
                    &&& r is None
                    &&& final(self).buffered() == inserted
                }
            }),
    {
        let ghost ks = keys_of(self.entries@);
        let k = e.timestamp.nanos;
        let mut i: usize = self.entries.len();
        proof {
            assert(ks.subrange(0, i as int) =~= ks);
        }
        while i > 0 && self.entries[i - 1].timestamp.nanos > k
            invariant
                i <= self.entries@.len(),
                self.entries@ == old(self).buffered(),
                ks == keys_of(self.entries@),
                insert_pos(ks, k) == insert_pos(ks.subrange(0, i as int), k),
            decreases i,
        {
            proof {
                assert(ks.subrange(0, i as int).drop_last() =~= ks.subrange(0, i - 1));
                assert(ks.subrange(0, i as int).last() == self.entries@[i - 1].timestamp.nanos);
            }
            i = i - 1;
        }
        proof {
            if i > 0 {
                assert(ks.subrange(0, i as int).last() == self.entries@[i - 1].timestamp.nanos);
            }
            assert(insert_pos(ks.subrange(0, i as int), k) == i) by {
                if i > 0 {
                    assert(ks.subrange(0, i as int).last() <= k);
                } else {
                    assert(ks.subrange(0, 0).len() == 0);
                }
            }
            lemma_window_insert_sorted(old(self).buffered(), e);
        }
        self.entries.insert(i, e);
        if self.entries.len() > self.window_size {
            let out = self.entries.remove(0);
            proof {
                let ins = window_insert(old(self).buffered(), e);
                assert(final(self).buffered() =~= ins.drop_first());
                lemma_sorted_suffix(keys_of(ins));
                assert(keys_of(ins.drop_first()) =~= keys_of(ins).drop_first());
            }
            Some(out)
        } else {
            None
        }
    }

    /// Releases the earliest buffered entry, if any: its key is no
    /// greater than any key that stays buffered.
    pub fn pop_front(&mut self) -> (r: Option<WindowEntry>)
        requires
            old(self).wf(),
        ensures
            final(self).wf(),
            final(self).size_bound() == old(self).size_bound(),
            old(self).buffered().len() == 0 ==> r is None && final(self).buffered() == old(
                self).buffered(),
            old(self).buffered().len() > 0 ==> r == Some(old(self).buffered()[0]) && final(
                self).buffered() == old(self).buffered().drop_first(),
    {
        if self.entries.len() == 0 {
            return None;
        }
        let out = self.entries.remove(0);
        proof {
            assert(final(self).buffered() =~= old(self).buffered().drop_first());
            lemma_sorted_suffix(keys_of(old(self).buffered()));
            assert(keys_of(old(self).buffered().drop_first()) =~= keys_of(
                old(self).buffered()).drop_first());
        }
        Some(out)
    }
}

proof fn lemma_sorted_suffix(s: Seq<i64>)
    requires
        sorted_keys(s),
        s.len() > 0,
    ensures
        sorted_keys(s.drop_first()),
{
    assert(forall|j: int| 0 <= j < s.len() - 1 ==> s.drop_first()[j] == s[j + 1]);
}


// --- The whole run of the window ----------------------------------------------

/// The arrival positions of the entries of a buffer.
pub open spec fn idxs_of(s: Seq<WindowEntry>) -> Seq<int> {
    s.map_values(|e: WindowEntry| e.line_index as int)
}

/// Entries numbered by arrival: the entry at position `i` carries `i`.
pub open spec fn arrival_numbered(entries: Seq<WindowEntry>) -> bool {
    forall|i: int| 0 <= i < entries.len() ==> #[trigger] entries[i].line_index == i
}

/// No entry bears a smaller timestamp than an entry more than `w` places
/// before it in arrival order.
pub open spec fn displacement_bounded(entries: Seq<WindowEntry>, w: nat) -> bool {
    forall|i: int, j: int|
        0 <= i < j < entries.len() && j - i > w ==> #[trigger] entries[i].timestamp.nanos
            <= #[trigger] entries[j].timestamp.nanos
}

/// The whole run of the window over an arrival sequence: each entry is
/// buffered in turn, as `push` does, and each overflow releases the
/// earliest buffered entry; the result is the final buffer and the
/// releases in order.
pub open spec fn feed(entries: Seq<WindowEntry>, w: nat) -> (Seq<WindowEntry>, Seq<WindowEntry>)
    decreases entries.len(),
{
    if entries.len() == 0 {
        (Seq::empty(), Seq::empty())
    } else {
        let prev = feed(entries.drop_last(), w);
        let ins = window_insert(prev.0, entries.last());
        if ins.len() > w {
            (ins.drop_first(), prev.1.push(ins[0]))
        } else {
            (ins, prev.1)
        }
    }
}

/// What the run maintains after `k` arrivals: both sides sorted by key,
/// the last release at most every buffered key, buffer and releases
/// together holding exactly the first `k` arrivals, and — once anything
/// was released — an arrival at least `w + 1` places back whose key is at
/// least the last released key.
spec fn feed_inv(entries: Seq<WindowEntry>, w: nat, k: int) -> bool {
    let st = feed(entries.subrange(0, k), w);
    let buf = st.0;
    let out = st.1;
    &&& buf.len() <= w
    &&& sorted_keys(keys_of(buf))
    &&& sorted_keys(keys_of(out))
    &&& (out.len() > 0 ==> forall|t: int|
        0 <= t < buf.len() ==> keys_of(out).last() <= #[trigger] buf[t].timestamp.nanos)
    &&& (idxs_of(out) + idxs_of(buf)).to_multiset() == idxs_of(
        entries.subrange(0, k),
    ).to_multiset()
    &&& (forall|t: int|
        0 <= t < buf.len() ==> 0 <= #[trigger] buf[t].line_index < k && buf[t]
            == entries[buf[t].line_index as int])
    &&& (forall|t: int|
        0 <= t < out.len() ==> 0 <= #[trigger] out[t].line_index < k && out[t]
            == entries[out[t].line_index as int])
    &&& (out.len() > 0 ==> exists|i0: int|
        0 <= i0 <= k - 1 - w && #[trigger] entries[i0].timestamp.nanos >= keys_of(out).last())
}

proof fn lemma_idxs_insert(s: Seq<WindowEntry>, e: WindowEntry, p: int)
    requires
        0 <= p <= s.len(),
    ensures
        idxs_of(s.insert(p, e)) == idxs_of(s).insert(p, e.line_index as int),
{
    assert(idxs_of(s.insert(p, e)) =~= idxs_of(s).insert(p, e.line_index as int));
}

/// Among `w + 1` distinct arrivals no later than `hi`, one is at least
/// `w` places back.
proof fn lemma_small_arrival_exists(xs: Seq<int>, hi: int, w: nat)
    requires
        xs.no_duplicates(),
        xs.len() == w + 1,
        forall|t: int| 0 <= t < xs.len() ==> 0 <= #[trigger] xs[t] <= hi,
    ensures
        exists|t: int| 0 <= t < xs.len() && #[trigger] xs[t] <= hi - w,
{
    if forall|t: int| 0 <= t < xs.len() ==> #[trigger] xs[t] > hi - w {
        xs.unique_seq_to_set();
        vstd::set_lib::lemma_int_range(hi - w + 1, hi + 1);
        assert forall|x: int| xs.to_set().contains(x) implies vstd::set_lib::set_int_range(
            hi - w + 1,
            hi + 1,
        ).contains(x) by {
            let t = choose|t: int| 0 <= t < xs.len() && xs[t] == x;
            assert(xs[t] > hi - w && xs[t] <= hi);
        }
        vstd::set_lib::lemma_len_subset(
            xs.to_set(),
            vstd::set_lib::set_int_range(hi - w + 1, hi + 1),
        );
        assert(false);
    }
}

#[verifier::rlimit(100)]
proof fn lemma_feed_inv(entries: Seq<WindowEntry>, w: nat, k: int)
    requires
        0 <= k <= entries.len(),
        arrival_numbered(entries),
        displacement_bounded(entries, w),
    ensures
        feed_inv(entries, w, k),
    decreases k,
{
    let q = entries.subrange(0, k);
    if k == 0 {
        assert(q =~= Seq::<WindowEntry>::empty());
        assert(idxs_of(q) =~= Seq::<int>::empty());
        assert((idxs_of(feed(q, w).1) + idxs_of(feed(q, w).0)) =~= Seq::<int>::empty());
        return ;
    }
    lemma_feed_inv(entries, w, k - 1);
    let p = entries.subrange(0, k - 1);
    assert(q.drop_last() =~= p);
    let e = entries[k - 1];
    assert(q.last() == e);
    assert(e.line_index == k - 1);
    let st = feed(p, w);
    let buf = st.0;
    let out = st.1;
    let pos = insert_pos(keys_of(buf), e.timestamp.nanos);
    lemma_insert_pos_sorted(keys_of(buf), e.timestamp.nanos);
    let ins = window_insert(buf, e);
    lemma_window_insert_sorted(buf, e);
    lemma_keys_insert(buf, e, pos);
    lemma_idxs_insert(buf, e, pos);

    // The new arrival's key is at least the last released key.
    if out.len() > 0 {
        let i0 = choose|i0: int|
            0 <= i0 <= (k - 1) - 1 - w && #[trigger] entries[i0].timestamp.nanos >= keys_of(
                out,
            ).last();
        assert((k - 1) - i0 > w);
        assert(entries[i0].timestamp.nanos <= entries[k - 1].timestamp.nanos);
        assert(keys_of(out).last() <= e.timestamp.nanos);
    }

    // Identity of the inserted buffer's entries.
    assert forall|t: int|
        0 <= t < ins.len() implies 0 <= #[trigger] ins[t].line_index < k && ins[t]
        == entries[ins[t].line_index as int] by {
        if t < pos {
            assert(ins[t] == buf[t]);
        } else if t == pos {
            assert(ins[t] == e);
        } else {
            assert(ins[t] == buf[t - 1]);
        }
    }

    // Arrival bookkeeping of the inserted buffer.
    lemma_seq_insert_multiset(idxs_of(buf), pos, k - 1);
    assert(idxs_of(q) =~= idxs_of(p).push(k - 1));
    idxs_of(p).to_multiset_ensures();
    vstd::seq_lib::lemma_multiset_commutative(idxs_of(out), idxs_of(buf));
    vstd::seq_lib::lemma_multiset_commutative(idxs_of(out), idxs_of(ins));
    idxs_of(q).to_multiset_ensures();
    assert((idxs_of(out) + idxs_of(ins)).to_multiset() == idxs_of(q).to_multiset()) by {
        assert(idxs_of(ins).to_multiset() == idxs_of(buf).to_multiset().insert(k - 1));
        assert(idxs_of(q).to_multiset() == idxs_of(p).to_multiset().insert(k - 1));
        assert((idxs_of(out) + idxs_of(ins)).to_multiset() =~= (idxs_of(out)
            + idxs_of(buf)).to_multiset().insert(k - 1));
        assert(idxs_of(p).to_multiset().insert(k - 1) =~= (idxs_of(out)
            + idxs_of(buf)).to_multiset().insert(k - 1));
    }

    if ins.len() > w {
        // A release: the earliest buffered entry leaves.
        let nbuf = ins.drop_first();
        let nout = out.push(ins[0]);
        assert(feed(q, w) == (nbuf, nout));

        // The released key follows every earlier release.
        if out.len() > 0 {
            if pos == 0 {
                assert(ins[0] == e);
            } else {
                assert(ins[0] == buf[0]);
            }
            assert(keys_of(out).last() <= ins[0].timestamp.nanos);
        }
        assert(sorted_keys(keys_of(nout))) by {
            assert(keys_of(nout) =~= keys_of(out).push(ins[0].timestamp.nanos));
            assert forall|i: int, j: int|
                0 <= i < j < keys_of(nout).len() implies keys_of(nout)[i] <= keys_of(
                nout,
            )[j] by {
                if j < keys_of(out).len() {
                } else if i < keys_of(out).len() {
                    assert(keys_of(out)[i] <= keys_of(out).last());
                }
            }
        }

        // The remaining buffer stays sorted and above the new last release.
        assert(keys_of(nbuf) =~= keys_of(ins).drop_first());
        lemma_sorted_suffix(keys_of(ins));
        assert forall|t: int|
            0 <= t < nbuf.len() implies keys_of(nout).last() <= #[trigger] nbuf[t].timestamp.nanos by {
            assert(keys_of(ins)[0] <= keys_of(ins)[t + 1]);
            assert(nbuf[t] == ins[t + 1]);
        }

        // Arrival bookkeeping after the release.
        assert((idxs_of(nout) + idxs_of(nbuf)).to_multiset() == idxs_of(q).to_multiset()) by {
            idxs_of(ins).to_multiset_ensures();
            assert(idxs_of(ins).remove(0) =~= idxs_of(nbuf));
            idxs_of(out).to_multiset_ensures();
            assert(idxs_of(nout) =~= idxs_of(out).push(ins[0].line_index as int));
            idxs_of(nout).to_multiset_ensures();
            vstd::seq_lib::lemma_multiset_commutative(idxs_of(nout), idxs_of(nbuf));
            assert(idxs_of(ins).to_multiset().contains(idxs_of(ins)[0]));
            assert(idxs_of(nbuf).to_multiset() =~= idxs_of(ins).to_multiset().remove(
                ins[0].line_index as int,
            ));
            assert((idxs_of(nout) + idxs_of(nbuf)).to_multiset() =~= (idxs_of(out) + idxs_of(
                ins,
            )).to_multiset());
        }

        // A sufficiently old arrival bounds the new last release: the
        // buffer held `w + 1` distinct arrivals among the first `k`.
        assert(idxs_of(q).no_duplicates()) by {
            assert(forall|t: int| 0 <= t < k ==> #[trigger] idxs_of(q)[t] == t);
        }
        idxs_of(q).lemma_multiset_has_no_duplicates();
        assert(idxs_of(ins).no_duplicates()) by {
            vstd::seq_lib::lemma_multiset_commutative(idxs_of(out), idxs_of(ins));
            assert forall|x: int|
                idxs_of(ins).to_multiset().contains(x) implies idxs_of(ins).to_multiset().count(x)
                == 1 by {
                assert(idxs_of(ins).to_multiset().count(x) + idxs_of(out).to_multiset().count(x)
                    == idxs_of(q).to_multiset().count(x));
                assert(idxs_of(q).to_multiset().contains(x));
            }
            idxs_of(ins).lemma_multiset_has_no_duplicates_conv();
        }
        assert(ins.len() == w + 1);
        assert(idxs_of(ins).len() == w + 1);
        assert(forall|t: int| 0 <= t < idxs_of(ins).len() ==> 0 <= #[trigger] idxs_of(ins)[t] <= k
            - 1);
        lemma_small_arrival_exists(idxs_of(ins), k - 1, w);
        let t0 = choose|t: int| 0 <= t < idxs_of(ins).len() && #[trigger] idxs_of(ins)[t] <= k - 1
            - w;
        let i0 = ins[t0].line_index as int;
        assert(entries[i0] == ins[t0]);
        assert(keys_of(ins)[0] <= keys_of(ins)[t0]);
        assert(entries[i0].timestamp.nanos >= keys_of(nout).last());
        assert(0 <= i0 <= k - 1 - w);
    } else {
        assert(feed(q, w) == (ins, out));
    }
}

/// Law: when every out-of-order pair of arrivals is at most `w` places
/// apart, the window's releases — those during feeding followed by the
/// final drain — carry non-decreasing timestamps.
pub proof fn lemma_feed_monotone(entries: Seq<WindowEntry>, w: nat)
    requires
        arrival_numbered(entries),
        displacement_bounded(entries, w),
    ensures
        ({
            let st = feed(entries, w);
            sorted_keys(keys_of(st.1 + st.0))
        }),
{
    lemma_feed_inv(entries, w, entries.len() as int);
    assert(entries.subrange(0, entries.len() as int) =~= entries);
    let st = feed(entries, w);
    let buf = st.0;
    let out = st.1;
    let all = keys_of(out + buf);
    assert(all =~= keys_of(out) + keys_of(buf));
    assert forall|i: int, j: int| 0 <= i < j < all.len() implies all[i] <= all[j] by {
        let n = keys_of(out).len() as int;
        if j < n {
        } else if i < n {
            assert(all[i] == keys_of(out)[i]);
            assert(keys_of(out)[i] <= keys_of(out).last());
            assert(all[j] == buf[j - n].timestamp.nanos);
        } else {
            assert(all[i] == keys_of(buf)[i - n]);
            assert(all[j] == keys_of(buf)[j - n]);
        }
    }
}

} // verus!
