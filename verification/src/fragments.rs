//! Reassembly of fragmented Photon commands (`SendFragment`).
//!
//! A fragmented message is announced by its start sequence number and total
//! length; each fragment carries its offset.  Fragments are copied into a
//! zero-filled buffer, the bytes they cover are marked as received, and the
//! message is handed out, and forgotten, once every byte of it has been
//! received.  A fragment sent again covers bytes already received and so
//! brings the message no nearer to completion.
use vstd::prelude::*;
use std::collections::HashMap;

verus! {

broadcast use vstd::std_specs::hash::group_hash_axioms;

/// A message under reassembly.
#[derive(Clone, Debug)]
pub struct PendingSegment {
    payload: Vec<u8>,
    received: Vec<bool>,
    missing: usize,
    total_length: usize,
}

/// The mathematical state of a message under reassembly: its bytes so
/// far, which of them were received, how many are still missing, and the
/// announced length.
pub struct SPending {
    pub payload: Seq<u8>,
    pub received: Seq<bool>,
    pub missing: nat,
    pub total: nat,
}

impl View for PendingSegment {
    type V = SPending;

    closed spec fn view(&self) -> SPending {
        SPending {
            payload: self.payload@,
            received: self.received@,
            missing: self.missing as nat,
            total: self.total_length as nat,
        }
    }
}

/// The number of bytes not yet received.
pub open spec fn count_missing(r: Seq<bool>) -> nat
    decreases r.len(),
{
    if r.len() == 0 {
        0
    } else {
        count_missing(r.drop_last()) + if r.last() {
            0nat
        } else {
            1nat
        }
    }
}

/// Every byte has been received.
pub open spec fn all_received(r: Seq<bool>) -> bool {
    forall|i: int| 0 <= i < r.len() ==> #[trigger] r[i]
}

/// A pending message still waiting for bytes, with a buffer and a mask the
/// size of the announced total, which an allocation can hold.
pub open spec fn pending_ok(s: SPending) -> bool {
    &&& s.payload.len() == s.total
    &&& s.received.len() == s.total
    &&& s.missing == count_missing(s.received)
    &&& !all_received(s.received)
    &&& s.total <= isize::MAX
}

/// Reassembles fragmented Photon commands.
#[derive(Clone, Debug)]
pub struct FragmentReassembler {
    pending_segments: HashMap<i32, PendingSegment>,
}

impl View for FragmentReassembler {
    type V = Map<i32, SPending>;

    closed spec fn view(&self) -> Map<i32, SPending> {
        Map::new(
            |k: i32| self.pending_segments@.contains_key(k),
            |k: i32| self.pending_segments@[k]@,
        )
    }
}

/// `frag` written over `buf` from position `off`.
pub open spec fn splice(buf: Seq<u8>, off: int, frag: Seq<u8>) -> Seq<u8> {
    buf.take(off) + frag + buf.skip(off + frag.len())
}

/// The mask with the `n` bytes from `off` marked as received.
pub open spec fn mark(r: Seq<bool>, off: int, n: int) -> Seq<bool> {
    Seq::new(r.len(), |i: int| r[i] || (off <= i < off + n))
}

/// Inputs on which taking the fragment in cannot be done: the end offset
/// overflows `usize`, or a new message announces a length beyond what an
/// allocation can hold.
pub open spec fn push_fails(m: Map<i32, SPending>, seq: i32, total: nat, off: nat, frag: Seq<u8>) -> bool {
    ||| off + frag.len() > usize::MAX
    ||| (off + frag.len() <= total && !m.contains_key(seq) && total > isize::MAX)
}

/// A new, empty message of `total` bytes.
pub open spec fn fresh_pending(total: nat) -> SPending {
    SPending {
        payload: Seq::new(total, |i: int| 0u8),
        received: Seq::new(total, |i: int| false),
        missing: total,
        total,
    }
}

/// The pending messages after taking in a fragment, and the completed
/// message when this fragment brings in its last missing bytes.  A fragment
/// that ends past the announced length, or whose length disagrees with the
/// message under reassembly, is ignored.
pub open spec fn push_result(
    m: Map<i32, SPending>,
    seq: i32,
    total: nat,
    off: nat,
    frag: Seq<u8>,
) -> (Map<i32, SPending>, Option<Seq<u8>>) {
    if off + frag.len() > total {
        (m, None)
    } else {
        let cur = if m.contains_key(seq) {
            m[seq]
        } else {
            fresh_pending(total)
        };
        if cur.total != total {
            (m, None)
        } else {
            let payload = splice(cur.payload, off as int, frag);
            let received = mark(cur.received, off as int, frag.len() as int);
            if all_received(received) {
                (m.remove(seq), Some(payload))
            } else {
                (
                    m.insert(
                        seq,
                        SPending { payload, received, missing: count_missing(received), total },
                    ),
                    None,
                )
            }
        }
    }
}

proof fn lemma_count_missing_zero(r: Seq<bool>)
    ensures
        (count_missing(r) == 0) == all_received(r),
    decreases r.len(),
{
    if r.len() > 0 {
        lemma_count_missing_zero(r.drop_last());
        if all_received(r) {
            assert(all_received(r.drop_last())) by {
                assert forall|i: int| 0 <= i < r.drop_last().len() implies #[trigger] r.drop_last()[i] by {
                    assert(r[i]);
                }
            }
            assert(r[r.len() - 1]);
        } else if count_missing(r) == 0 {
            assert(all_received(r.drop_last()));
            assert(r.last());
            assert forall|i: int| 0 <= i < r.len() implies #[trigger] r[i] by {
                if i < r.len() - 1 {
                    assert(r.drop_last()[i]);
                }
            }
        }
    }
}

proof fn lemma_count_missing_all_false(n: nat)
    ensures
        count_missing(Seq::new(n, |i: int| false)) == n,
    decreases n,
{
    if n > 0 {
        let r = Seq::new(n, |i: int| false);
        assert(r.drop_last() =~= Seq::new((n - 1) as nat, |i: int| false));
        lemma_count_missing_all_false((n - 1) as nat);
    }
}

/// Marking a byte that was missing leaves one fewer missing.
proof fn lemma_count_missing_update(r: Seq<bool>, i: int)
    requires
        0 <= i < r.len(),
        !r[i],
    ensures
        count_missing(r.update(i, true)) + 1 == count_missing(r),
    decreases r.len(),
{
    let u = r.update(i, true);
    if i == r.len() - 1 {
        assert(u.drop_last() =~= r.drop_last());
    } else {
        assert(u.drop_last() =~= r.drop_last().update(i, true));
        lemma_count_missing_update(r.drop_last(), i);
    }
}

impl FragmentReassembler {
    /// Every pending message is still waiting and has a buffer of its size.
    pub open spec fn wf(&self) -> bool {
        forall|k: i32| #[trigger] self@.contains_key(k) ==> pending_ok(self@[k])
    }

    /// An empty reassembler.
    pub fn new() -> (r: Self)
        ensures
            r.wf(),
            r@ == Map::<i32, SPending>::empty(),
    {
        let r = FragmentReassembler { pending_segments: HashMap::new() };
        assert(r@ =~= Map::<i32, SPending>::empty());
        r
    }

    /// Whether a message with this start sequence number is under reassembly.
    pub fn is_pending(&self, start_sequence_number: i32) -> (b: bool)
        ensures
            b == self@.contains_key(start_sequence_number),
    {
        self.pending_segments.contains_key(&start_sequence_number)
    }

    /// Takes in one fragment of the message that starts at sequence number
    /// `start_sequence_number`; returns the whole message when this
    /// fragment brings in the last of its `total_length` bytes.
    pub fn push_fragment(
        &mut self,
        start_sequence_number: i32,
        total_length: usize,
        fragment_offset: usize,
        fragment: &[u8],
    ) -> (r: Option<Vec<u8>>)
        requires
            old(self).wf(),
            !push_fails(
                old(self)@,
                start_sequence_number,
                total_length as nat,
                fragment_offset as nat,
                fragment@,
            ),
        ensures
            final(self).wf(),
            (final(self)@, match r {
                Some(v) => Some(v@),
                None => None,
            }) == push_result(
                old(self)@,
                start_sequence_number,
                total_length as nat,
                fragment_offset as nat,
                fragment@,
            ),
    {
        let ghost m0 = self@;
        let end = fragment_offset + fragment.len();
        if end > total_length {
            return None;
        }
        let existing = self.pending_segments.remove(&start_sequence_number);
        let ghost m1 = self@;
        assert(m1 =~= m0.remove(start_sequence_number));
        let mut seg = match existing {
            Some(s) => s,
            None => {
                let mut zeros: Vec<u8> = Vec::new();
                let mut flags: Vec<bool> = Vec::new();
                let mut i: usize = 0;
                while i < total_length
                    invariant
                        i <= total_length,
                        zeros@ == Seq::new(i as nat, |j: int| 0u8),
                        flags@ == Seq::new(i as nat, |j: int| false),
                    decreases total_length - i,
                {
                    zeros.push(0);
                    flags.push(false);
                    i += 1;
                    assert(zeros@ =~= Seq::new(i as nat, |j: int| 0u8));
                    assert(flags@ =~= Seq::new(i as nat, |j: int| false));
                }
                proof {
                    lemma_count_missing_all_false(total_length as nat);
                }
                PendingSegment { payload: zeros, received: flags, missing: total_length, total_length }
            },
        };
        let ghost cur = if m0.contains_key(start_sequence_number) {
            m0[start_sequence_number]
        } else {
            fresh_pending(total_length as nat)
        };
        assert(seg@ == cur);
        assert(m0.contains_key(start_sequence_number) ==> pending_ok(m0[start_sequence_number]));
        if seg.total_length != total_length {
            self.pending_segments.insert(start_sequence_number, seg);
            assert(self@ =~= m0);
            return None;
        }
        assert(cur.received.len() == total_length && cur.payload.len() == total_length);
        assert(cur.missing == count_missing(cur.received));
        assert(total_length <= isize::MAX);
        let ghost before = seg.payload@;
        let ghost rbefore = seg.received@;
        let mut k: usize = 0;
        while k < fragment.len()
            invariant
                fragment_offset + fragment@.len() <= total_length,
                seg.payload@.len() == total_length,
                seg.received@.len() == total_length,
                seg.total_length == total_length,
                seg.missing as nat == count_missing(seg.received@),
                total_length <= isize::MAX,
                k <= fragment@.len(),
                seg.payload@ == before.take(fragment_offset as int) + fragment@.take(k as int)
                    + before.skip(fragment_offset + k),
                seg.received@ == mark(rbefore, fragment_offset as int, k as int),
                before.len() == total_length,
                rbefore.len() == total_length,
            decreases fragment@.len() - k,
        {
            let pos = fragment_offset + k;
            seg.payload.set(pos, fragment[k]);
            if !seg.received[pos] {
                proof {
                    lemma_count_missing_update(seg.received@, pos as int);
                }
                seg.received.set(pos, true);
                seg.missing = seg.missing - 1;
            } else {
                assert(seg.received@.update(pos as int, true) =~= seg.received@);
            }
            k += 1;
            assert(seg.payload@ =~= before.take(fragment_offset as int) + fragment@.take(k as int)
                + before.skip(fragment_offset + k));
            assert(seg.received@ =~= mark(rbefore, fragment_offset as int, k as int));
        }
        assert(fragment@.take(fragment@.len() as int) =~= fragment@);
        proof {
            lemma_count_missing_zero(seg.received@);
        }
        if seg.missing == 0 {
            assert(self@ =~= m0.remove(start_sequence_number));
            return Some(seg.payload);
        }
        let ghost new_seg = seg@;
        self.pending_segments.insert(start_sequence_number, seg);
        assert(self@ =~= m0.insert(start_sequence_number, new_seg));
        None
    }
}

/// A fragment that would end past the announced total length is ignored:
/// nothing changes and nothing is handed out.
pub proof fn law_out_of_bounds_fragment_ignored(
    m: Map<i32, SPending>,
    seq: i32,
    total: nat,
    off: nat,
    frag: Seq<u8>,
)
    requires
        off + frag.len() > total,
    ensures
        push_result(m, seq, total, off, frag) == (m, None::<Seq<u8>>),
{
}

/// A fragment whose total length disagrees with the message under
/// reassembly is ignored.
pub proof fn law_conflicting_total_ignored(
    m: Map<i32, SPending>,
    seq: i32,
    total: nat,
    off: nat,
    frag: Seq<u8>,
)
    requires
        m.contains_key(seq),
        m[seq].total != total,
    ensures
        push_result(m, seq, total, off, frag) == (m, None::<Seq<u8>>),
{
}

/// A message sent as two fragments, the first at offset 0 and the second
/// right after it, is handed out whole once the second arrives, and is
/// then no longer pending.
pub proof fn law_two_fragments_reassemble(m: Map<i32, SPending>, seq: i32, a: Seq<u8>, b: Seq<u8>)
    requires
        !m.contains_key(seq),
        a.len() > 0,
        b.len() > 0,
    ensures
        ({
            let total = a.len() + b.len();
            let (m1, r1) = push_result(m, seq, total, 0, a);
            let (m2, r2) = push_result(m1, seq, total, a.len(), b);
            &&& r1 is None
            &&& m1.contains_key(seq)
            &&& r2 == Some(a + b)
            &&& m2 == m
        }),
{
    let total = a.len() + b.len();
    let f = fresh_pending(total);
    let p1 = splice(f.payload, 0, a);
    let r1 = mark(f.received, 0, a.len() as int);
    assert(!r1[a.len() as int]);
    let (m1, o1) = push_result(m, seq, total, 0, a);
    assert(m1 == m.insert(seq, SPending { payload: p1, received: r1, missing: count_missing(r1), total }));
    let p2 = splice(p1, a.len() as int, b);
    assert(p2 =~= a + b);
    let r2 = mark(r1, a.len() as int, b.len() as int);
    assert(all_received(r2));
    assert(m1.remove(seq) =~= m);
}

/// A message received again in full is handed out once only: a fragment
/// sent a second time brings no new bytes, so it completes nothing.
pub proof fn law_retransmit_completes_nothing(
    m: Map<i32, SPending>,
    seq: i32,
    total: nat,
    off: nat,
    frag: Seq<u8>,
)
    requires
        m.contains_key(seq),
        pending_ok(m[seq]),
        m[seq].total == total,
        off + frag.len() <= total,
        forall|i: int| off <= i < off + frag.len() ==> #[trigger] m[seq].received[i],
    ensures
        push_result(m, seq, total, off, frag).1 is None,
        push_result(m, seq, total, off, frag).0[seq].received == m[seq].received,
{
    let cur = m[seq];
    let r = mark(cur.received, off as int, frag.len() as int);
    assert(r =~= cur.received);
}

/// The pending messages and the answers after pushing the fragments
/// `frags` at offsets `offs`, in order, for one message.
pub open spec fn push_all(
    m: Map<i32, SPending>,
    seq: i32,
    total: nat,
    offs: Seq<nat>,
    frags: Seq<Seq<u8>>,
) -> (Map<i32, SPending>, Seq<Option<Seq<u8>>>)
    decreases offs.len(),
{
    if offs.len() == 0 || frags.len() == 0 {
        (m, Seq::empty())
    } else {
        let (m1, outs) = push_all(m, seq, total, offs.drop_last(), frags.drop_last());
        let (m2, o) = push_result(m1, seq, total, offs.last(), frags.last());
        (m2, outs.push(o))
    }
}

/// Fragment `i` covers byte `x`.
pub open spec fn covers(offs: Seq<nat>, frags: Seq<Seq<u8>>, i: int, x: int) -> bool {
    offs[i] <= x < offs[i] + frags[i].len()
}

/// The fragments are non-empty, lie inside the message, do not overlap,
/// and together cover every byte of it.
pub open spec fn tiles(total: nat, offs: Seq<nat>, frags: Seq<Seq<u8>>) -> bool {
    &&& offs.len() == frags.len()
    &&& forall|i: int| 0 <= i < offs.len() ==> #[trigger] frags[i].len() > 0 && offs[i] + frags[i].len() <= total
    &&& forall|i: int, j: int, x: int|
        0 <= i < offs.len() && 0 <= j < offs.len() && i != j && #[trigger] covers(offs, frags, i, x)
            ==> !#[trigger] covers(offs, frags, j, x)
    &&& forall|x: int| 0 <= x < total ==> #[trigger] covered(offs, frags, x)
}

/// Some fragment covers byte `x`.
pub open spec fn covered(offs: Seq<nat>, frags: Seq<Seq<u8>>, x: int) -> bool {
    exists|i: int| 0 <= i < offs.len() && #[trigger] covers(offs, frags, i, x)
}

spec fn payload_after(total: nat, offs: Seq<nat>, frags: Seq<Seq<u8>>, j: int) -> Seq<u8>
    decreases j,
{
    if j <= 0 {
        Seq::new(total, |i: int| 0u8)
    } else {
        splice(payload_after(total, offs, frags, j - 1), offs[j - 1] as int, frags[j - 1])
    }
}

spec fn received_after(total: nat, offs: Seq<nat>, frags: Seq<Seq<u8>>, j: int) -> Seq<bool>
    decreases j,
{
    if j <= 0 {
        Seq::new(total, |i: int| false)
    } else {
        mark(received_after(total, offs, frags, j - 1), offs[j - 1] as int, frags[j - 1].len() as int)
    }
}

proof fn lemma_after(total: nat, offs: Seq<nat>, frags: Seq<Seq<u8>>, j: int)
    requires
        tiles(total, offs, frags),
        0 <= j <= offs.len(),
    ensures
        payload_after(total, offs, frags, j).len() == total,
        received_after(total, offs, frags, j).len() == total,
        forall|x: int| 0 <= x < total ==> (#[trigger] received_after(total, offs, frags, j)[x] <==> exists|i: int|
            0 <= i < j && covers(offs, frags, i, x)),
        forall|i: int, y: int| 0 <= i < j && 0 <= y < frags[i].len() ==> #[trigger] payload_after(total, offs, frags, j)[offs[i] + y]
            == frags[i][y],
    decreases j,
{
    if j > 0 {
        lemma_after(total, offs, frags, j - 1);
        let pj = payload_after(total, offs, frags, j - 1);
        let rj = received_after(total, offs, frags, j - 1);
        let o = offs[j - 1] as int;
        let f = frags[j - 1];
        assert(f.len() > 0 && o + f.len() <= total);
        let p = payload_after(total, offs, frags, j);
        let r = received_after(total, offs, frags, j);
        assert(p == splice(pj, o, f));
        assert(p.len() == total);
        assert forall|x: int| 0 <= x < total implies (#[trigger] r[x] <==> exists|i: int|
            0 <= i < j && covers(offs, frags, i, x)) by {
            if r[x] && !rj[x] {
                assert(covers(offs, frags, j - 1, x));
            }
            if exists|i: int| 0 <= i < j && covers(offs, frags, i, x) {
                let i = choose|i: int| 0 <= i < j && covers(offs, frags, i, x);
                if i < j - 1 {
                    assert(rj[x]);
                }
            }
        }
        assert forall|i: int, y: int| 0 <= i < j && 0 <= y < frags[i].len() implies #[trigger] p[offs[i] + y]
            == frags[i][y] by {
            let x = offs[i] + y;
            assert(covers(offs, frags, i, x));
            if i == j - 1 {
                assert(p[x] == f[y]);
            } else {
                assert(!covers(offs, frags, j - 1, x));
                assert(pj[x] == frags[i][y]);
                if x < o {
                    assert(p[x] == pj.take(o)[x]);
                } else {
                    assert(p[x] == pj.skip(o + f.len())[x - o - f.len()]);
                }
            }
        }
    }
}

proof fn lemma_push_all_prefix(
    m: Map<i32, SPending>,
    seq: i32,
    total: nat,
    offs: Seq<nat>,
    frags: Seq<Seq<u8>>,
    j: int,
)
    requires
        tiles(total, offs, frags),
        offs.len() > 0,
        !m.contains_key(seq),
        0 <= j <= offs.len(),
    ensures
        ({
            let (mj, outs) = push_all(m, seq, total, offs.take(j), frags.take(j));
            &&& outs.len() == j
            &&& forall|t: int| 0 <= t < j && t < offs.len() - 1 ==> #[trigger] outs[t] is None
            &&& j == 0 ==> mj == m
            &&& 0 < j < offs.len() ==> {
                &&& mj.contains_key(seq)
                &&& mj[seq].total == total
                &&& mj[seq].payload == payload_after(total, offs, frags, j)
                &&& mj[seq].received == received_after(total, offs, frags, j)
                &&& mj.remove(seq) == m
            }
            &&& j == offs.len() ==> mj == m && outs[j - 1] == Some(
                payload_after(total, offs, frags, j),
            )
        }),
    decreases j,
{
    let k = offs.len() as int;
    if j == 0 {
        assert(offs.take(0).len() == 0);
    } else {
        lemma_push_all_prefix(m, seq, total, offs, frags, j - 1);
        lemma_after(total, offs, frags, j - 1);
        lemma_after(total, offs, frags, j);
        let ot = offs.take(j);
        let ft = frags.take(j);
        assert(ot.drop_last() =~= offs.take(j - 1));
        assert(ft.drop_last() =~= frags.take(j - 1));
        assert(ot.last() == offs[j - 1]);
        assert(ft.last() == frags[j - 1]);
        let (mp, outsp) = push_all(m, seq, total, offs.take(j - 1), frags.take(j - 1));
        let o = offs[j - 1];
        let f = frags[j - 1];
        assert(f.len() > 0 && o + f.len() <= total);
        let cur = if mp.contains_key(seq) {
            mp[seq]
        } else {
            fresh_pending(total)
        };
        assert(cur.total == total);
        assert(cur.payload == payload_after(total, offs, frags, j - 1));
        assert(cur.received == received_after(total, offs, frags, j - 1));
        let r = received_after(total, offs, frags, j);
        if j < k {
            let x = offs[j] as int;
            assert(frags[j].len() > 0);
            assert(covers(offs, frags, j, x));
            assert(!r[x]) by {
                if r[x] {
                    let i = choose|i: int| 0 <= i < j && covers(offs, frags, i, x);
                    assert(!covers(offs, frags, j, x));
                }
            }
            assert(!all_received(r));
        } else {
            assert forall|x: int| 0 <= x < r.len() implies #[trigger] r[x] by {
                assert(covered(offs, frags, x));
                let i = choose|i: int| 0 <= i < k && covers(offs, frags, i, x);
            }
            assert(all_received(r));
            if j - 1 > 0 {
                assert(mp.remove(seq) == m);
            }
            assert(mp.remove(seq) =~= m);
        }
        if j < k {
            let (mj, _) = push_all(m, seq, total, ot, ft);
            assert(mj.remove(seq) =~= m);
        }
    }
}

/// Fragments that do not overlap and together make up a message, pushed
/// one after another in any order onto a reassembler that holds no part of
/// it, complete it exactly at the last: every earlier push gives nothing,
/// the last gives the message with each fragment at its offset, and
/// nothing of it stays pending.
pub proof fn law_fragments_tile_in_any_order(
    m: Map<i32, SPending>,
    seq: i32,
    total: nat,
    offs: Seq<nat>,
    frags: Seq<Seq<u8>>,
)
    requires
        tiles(total, offs, frags),
        offs.len() > 0,
        !m.contains_key(seq),
    ensures
        ({
            let (mk, outs) = push_all(m, seq, total, offs, frags);
            &&& mk == m
            &&& outs.len() == offs.len()
            &&& forall|t: int| 0 <= t < offs.len() - 1 ==> #[trigger] outs[t] is None
            &&& outs[offs.len() - 1] matches Some(p) && p.len() == total && forall|i: int, y: int|
                0 <= i < offs.len() && 0 <= y < frags[i].len() ==> #[trigger] p[offs[i] + y]
                    == frags[i][y]
        }),
{
    let k = offs.len() as int;
    lemma_push_all_prefix(m, seq, total, offs, frags, k);
    lemma_after(total, offs, frags, k);
    assert(offs.take(k) =~= offs);
    assert(frags.take(k) =~= frags);
}

} // verus!
