//! Recovery by replay: the meaning of a sequence of segments is the index
//! and garbage count obtained by parsing every segment's records in
//! generation order and applying them one by one.  This is the ground truth
//! the engine's in-memory state is held to.

use vstd::prelude::*;

use crate::codec::RecParse;
use crate::codec::RecordView;
use crate::codec::enc_record;
use crate::codec::lemma_dec_enc_record;
use crate::codec::lemma_sdec_record_sound;
use crate::codec::sdec_record;

verus! {

/// Where a key's most recent live record sits, and the value it carries.
pub ghost struct EntryS {
    pub gen: int,
    pub off: int,
    pub len: int,
    pub val: Seq<u8>,
}

/// One parsed record applied to the replay state (index map and garbage).
///
/// A `Put` over an existing key turns the old record's bytes into garbage; a
/// `Remove` of a live key turns that record's bytes into garbage and drops
/// the key; a `Remove` of an absent key can never be read back and is
/// itself garbage the moment it is written.
pub open spec fn apply_record(
    m: Map<Seq<u8>, EntryS>,
    g: int,
    rec: RecordView,
    gen: int,
    off: int,
    end: int,
) -> (Map<Seq<u8>, EntryS>, int) {
    match rec {
        RecordView::Put { key, value } => (
            m.insert(key, EntryS { gen, off, len: end - off, val: value }),
            if m.contains_key(key) {
                g + m[key].len
            } else {
                g
            },
        ),
        RecordView::Remove { key } => if m.contains_key(key) {
            (m.remove(key), g + m[key].len)
        } else {
            (m, g + (end - off))
        },
    }
}

/// Replay one segment from `pos`.  Parsing stops at the first position that
/// does not parse as a record: a half-written trailing record is treated as
/// the end of that segment's log, not as a fatal error.  Returns the final
/// index, garbage, and the position where parsing stopped.
pub open spec fn replay_seg(
    s: Seq<u8>,
    gen: int,
    m: Map<Seq<u8>, EntryS>,
    g: int,
    pos: int,
) -> (Map<Seq<u8>, EntryS>, int, int)
    decreases s.len() - pos,
{
    match sdec_record(s, pos) {
        RecParse::Parsed { rec, end } => if pos < end <= s.len() {
            let stepped = apply_record(m, g, rec, gen, pos, end);
            replay_seg(s, gen, stepped.0, stepped.1, end)
        } else {
            (m, g, pos)
        },
        _ => (m, g, pos),
    }
}

/// Replay the first `i` segments, in generation order, from the empty state.
pub open spec fn replay_upto(segs: Seq<Seq<u8>>, i: int) -> (Map<Seq<u8>, EntryS>, int)
    decreases i,
{
    if i <= 0 {
        (Map::empty(), 0)
    } else {
        let prev = replay_upto(segs, i - 1);
        let r = replay_seg(segs[i - 1], i, prev.0, prev.1, 0);
        (r.0, r.1)
    }
}

/// The index that replaying every segment rebuilds.
pub open spec fn replay_map(segs: Seq<Seq<u8>>) -> Map<Seq<u8>, EntryS> {
    replay_upto(segs, segs.len() as int).0
}

/// The reclaimable byte count that replaying every segment computes.
pub open spec fn replay_garbage(segs: Seq<Seq<u8>>) -> int {
    replay_upto(segs, segs.len() as int).1
}

/// The visible contents of an index: each key to its live value bytes.
pub open spec fn model_of(m: Map<Seq<u8>, EntryS>) -> Map<Seq<u8>, Seq<u8>> {
    Map::new(|k: Seq<u8>| m.contains_key(k), |k: Seq<u8>| m[k].val)
}

/// The segment an entry points into holds, at the entry's offset, a `Put`
/// record for exactly that key and value.
pub open spec fn entry_valid(segs: Seq<Seq<u8>>, k: Seq<u8>, e: EntryS) -> bool {
    &&& 1 <= e.gen <= segs.len()
    &&& 0 <= e.off
    &&& e.off < e.off + e.len <= segs[e.gen - 1].len()
    &&& sdec_record(segs[e.gen - 1], e.off) == (RecParse::Parsed {
        rec: RecordView::Put { key: k, value: e.val },
        end: e.off + e.len,
    })
}

pub open spec fn map_valid(segs: Seq<Seq<u8>>, m: Map<Seq<u8>, EntryS>) -> bool {
    forall|k: Seq<u8>| m.contains_key(k) ==> entry_valid(segs, k, m[k])
}

/// The sum of all segment lengths: the total size of the log.
pub open spec fn total_len(segs: Seq<Seq<u8>>) -> int
    decreases segs.len(),
{
    if segs.len() == 0 {
        0
    } else {
        total_len(segs.drop_last()) + segs.last().len()
    }
}

pub proof fn lemma_total_len_update_last(segs: Seq<Seq<u8>>, s: Seq<u8>)
    requires
        segs.len() >= 1,
    ensures
        total_len(segs.update(segs.len() - 1, s)) == total_len(segs) - segs.last().len()
            + s.len(),
{
    let segs2 = segs.update(segs.len() - 1, s);
    assert(segs2.drop_last() =~= segs.drop_last());
    assert(segs2.last() == s);
}

pub proof fn lemma_total_len_push(segs: Seq<Seq<u8>>, s: Seq<u8>)
    ensures
        total_len(segs.push(s)) == total_len(segs) + s.len(),
{
    assert(segs.push(s).drop_last() =~= segs);
    assert(segs.push(s).last() == s);
}

pub proof fn lemma_total_len_single(s: Seq<u8>)
    ensures
        total_len(seq![s]) == s.len(),
{
    assert(seq![s].drop_last() =~= Seq::<Seq<u8>>::empty());
    assert(total_len(Seq::<Seq<u8>>::empty()) == 0);
}

/// Replay at a segment's end stops immediately.
pub proof fn lemma_replay_seg_at_end(s: Seq<u8>, gen: int, m: Map<Seq<u8>, EntryS>, g: int)
    ensures
        replay_seg(s, gen, m, g, s.len() as int) == (m, g, s.len() as int),
{
    assert(sdec_record(s, s.len() as int) is Truncated);
}

/// Replaying an empty segment changes nothing.
pub proof fn lemma_replay_seg_empty(gen: int, m: Map<Seq<u8>, EntryS>, g: int)
    ensures
        replay_seg(Seq::<u8>::empty(), gen, m, g, 0) == (m, g, 0int),
{
    assert(sdec_record(Seq::<u8>::empty(), 0) is Truncated);
}

/// Replay only looks at the segments before `i`.
pub proof fn lemma_replay_upto_congruence(s1: Seq<Seq<u8>>, s2: Seq<Seq<u8>>, i: int)
    requires
        forall|j: int| 0 <= j < i ==> s1[j] == s2[j],
    ensures
        replay_upto(s1, i) == replay_upto(s2, i),
    decreases i,
{
    if i > 0 {
        lemma_replay_upto_congruence(s1, s2, i - 1);
    }
}

/// Replay of a segment only adds entries that point at records it holds.
proof fn lemma_replay_seg_valid(
    segs: Seq<Seq<u8>>,
    gen: int,
    m: Map<Seq<u8>, EntryS>,
    g: int,
    pos: int,
)
    requires
        map_valid(segs, m),
        1 <= gen <= segs.len(),
        0 <= pos,
    ensures
        map_valid(segs, replay_seg(segs[gen - 1], gen, m, g, pos).0),
    decreases segs[gen - 1].len() - pos,
{
    let s = segs[gen - 1];
    match sdec_record(s, pos) {
        RecParse::Parsed { rec, end } => {
            if pos < end <= s.len() {
                let stepped = apply_record(m, g, rec, gen, pos, end);
                assert(map_valid(segs, stepped.0)) by {
                    match rec {
                        RecordView::Put { key, value } => {
                            assert(entry_valid(
                                segs,
                                key,
                                EntryS { gen, off: pos, len: end - pos, val: value },
                            ));
                        },
                        RecordView::Remove { key } => {},
                    }
                }
                lemma_replay_seg_valid(segs, gen, stepped.0, stepped.1, end);
            }
        },
        _ => {},
    }
}

proof fn lemma_replay_upto_valid(segs: Seq<Seq<u8>>, i: int)
    requires
        i <= segs.len(),
    ensures
        map_valid(segs, replay_upto(segs, i).0),
    decreases i,
{
    if i <= 0 {
    } else {
        lemma_replay_upto_valid(segs, i - 1);
        let prev = replay_upto(segs, i - 1);
        lemma_replay_seg_valid(segs, i, prev.0, prev.1, 0);
    }
}

/// Every entry the rebuilt index holds points at a live `Put` record.
pub proof fn lemma_replay_map_valid(segs: Seq<Seq<u8>>)
    ensures
        map_valid(segs, replay_map(segs)),
{
    lemma_replay_upto_valid(segs, segs.len() as int);
}

/// Where replay of segment `i` stops, given the replay state before it.
pub open spec fn seg_stop(segs: Seq<Seq<u8>>, i: int) -> int {
    replay_seg(segs[i], i + 1, replay_upto(segs, i).0, replay_upto(segs, i).1, 0).2
}

/// A log is corrupt when some segment's replay stops at bytes that no
/// record can begin with.  Bytes that are a proper prefix of a record — the
/// torn tail a crash mid-append leaves — parse as truncated, not corrupt,
/// and are tolerated as that segment's end of log.
#[verifier::opaque]
pub open spec fn log_corrupt(segs: Seq<Seq<u8>>) -> bool {
    exists|i: int|
        0 <= i < segs.len() && sdec_record(segs[i], seg_stop(segs, i)) is Corrupt
}

/// Opening a fresh, empty generation cannot make a clean log corrupt.
pub proof fn lemma_log_corrupt_push_empty(segs: Seq<Seq<u8>>)
    requires
        !log_corrupt(segs),
    ensures
        !log_corrupt(segs.push(Seq::<u8>::empty())),
{
    reveal(log_corrupt);
    let segs2 = segs.push(Seq::<u8>::empty());
    assert forall|i: int|
        0 <= i < segs2.len() implies !(sdec_record(segs2[i], seg_stop(segs2, i)) is Corrupt) by {
        lemma_replay_upto_congruence(segs2, segs, i);
        if i < segs.len() {
            assert(segs2[i] == segs[i]);
            assert(!(sdec_record(segs[i], seg_stop(segs, i)) is Corrupt));
        } else {
            let pre = replay_upto(segs2, i);
            lemma_replay_seg_empty(i + 1, pre.0, pre.1);
            assert(sdec_record(segs2[i], 0) is Truncated);
        }
    }
}

/// Appending one whole encoded record to a fully-parsed active segment
/// cannot make a clean log corrupt.
pub proof fn lemma_log_corrupt_append_last(segs: Seq<Seq<u8>>, rec: RecordView)
    requires
        segs.len() >= 1,
        !log_corrupt(segs),
        ({
            let pre = replay_upto(segs, segs.len() - 1);
            replay_seg(segs.last(), segs.len() as int, pre.0, pre.1, 0).2 == segs.last().len()
        }),
    ensures
        !log_corrupt(segs.update(segs.len() - 1, segs.last() + enc_record(rec))),
{
    reveal(log_corrupt);
    let n = segs.len() as int;
    let segs2 = segs.update(n - 1, segs.last() + enc_record(rec));
    lemma_replay_append_last(segs, rec);
    assert forall|i: int|
        0 <= i < segs2.len() implies !(sdec_record(segs2[i], seg_stop(segs2, i)) is Corrupt) by {
        lemma_replay_upto_congruence(segs2, segs, i);
        if i < n - 1 {
            assert(segs2[i] == segs[i]);
            assert(!(sdec_record(segs[i], seg_stop(segs, i)) is Corrupt));
        } else {
            assert(seg_stop(segs2, i) == segs2[i].len());
            assert(sdec_record(segs2[i], segs2[i].len() as int) is Truncated);
        }
    }
}

/// A log of one fully-parsed segment is clean.
pub proof fn lemma_log_corrupt_single(s: Seq<u8>)
    requires
        replay_seg(s, 1, Map::<Seq<u8>, EntryS>::empty(), 0, 0).2 == s.len(),
    ensures
        !log_corrupt(seq![s]),
{
    reveal(log_corrupt);
    assert forall|i: int|
        0 <= i < seq![s].len() implies !(sdec_record(seq![s][i], seg_stop(seq![s], i))
        is Corrupt) by {
        assert(replay_upto(seq![s], 0) == (Map::<Seq<u8>, EntryS>::empty(), 0int));
        assert(seq![s][0] == s);
        assert(sdec_record(s, s.len() as int) is Truncated);
    }
}

/// Replay never decreases the garbage count.
proof fn lemma_replay_seg_garbage_mono(
    segs: Seq<Seq<u8>>,
    gen: int,
    m: Map<Seq<u8>, EntryS>,
    g: int,
    pos: int,
)
    requires
        map_valid(segs, m),
        1 <= gen <= segs.len(),
        0 <= pos,
    ensures
        replay_seg(segs[gen - 1], gen, m, g, pos).1 >= g,
    decreases segs[gen - 1].len() - pos,
{
    let s = segs[gen - 1];
    match sdec_record(s, pos) {
        RecParse::Parsed { rec, end } => {
            if pos < end <= s.len() {
                let stepped = apply_record(m, g, rec, gen, pos, end);
                assert(map_valid(segs, stepped.0)) by {
                    match rec {
                        RecordView::Put { key, value } => {
                            assert(entry_valid(
                                segs,
                                key,
                                EntryS { gen, off: pos, len: end - pos, val: value },
                            ));
                        },
                        RecordView::Remove { key } => {},
                    }
                }
                assert(stepped.1 >= g);
                lemma_replay_seg_garbage_mono(segs, gen, stepped.0, stepped.1, end);
            }
        },
        _ => {},
    }
}

/// The garbage count a replay computes is never negative.
pub proof fn lemma_replay_garbage_nonneg(segs: Seq<Seq<u8>>)
    ensures
        replay_garbage(segs) >= 0,
{
    lemma_replay_upto_garbage(segs, segs.len() as int);
}

proof fn lemma_replay_upto_garbage(segs: Seq<Seq<u8>>, i: int)
    requires
        i <= segs.len(),
    ensures
        replay_upto(segs, i).1 >= 0,
    decreases i,
{
    if i <= 0 {
    } else {
        lemma_replay_upto_garbage(segs, i - 1);
        lemma_replay_upto_valid(segs, i - 1);
        let prev = replay_upto(segs, i - 1);
        lemma_replay_seg_garbage_mono(segs, i, prev.0, prev.1, 0);
    }
}

/// Appending one whole encoded record to a fully-parsed segment replays to
/// exactly one more applied record, and the result is again fully parsed.
pub proof fn lemma_replay_seg_append(
    s: Seq<u8>,
    gen: int,
    m: Map<Seq<u8>, EntryS>,
    g: int,
    pos: int,
    rec: RecordView,
)
    requires
        0 <= pos <= s.len(),
        replay_seg(s, gen, m, g, pos).2 == s.len(),
    ensures
        ({
            let base = replay_seg(s, gen, m, g, pos);
            let n = s.len() as int;
            let stepped = apply_record(base.0, base.1, rec, gen, n, n + enc_record(rec).len());
            replay_seg(s + enc_record(rec), gen, m, g, pos) == (
                stepped.0,
                stepped.1,
                n + enc_record(rec).len(),
            )
        }),
    decreases s.len() - pos,
{
    let t = s + enc_record(rec);
    match sdec_record(s, pos) {
        RecParse::Parsed { rec: r0, end } => {
            if pos < end <= s.len() {
                lemma_sdec_record_sound(s, pos);
                assert(t.subrange(pos, end) =~= s.subrange(pos, end));
                lemma_dec_enc_record(t, pos, r0);
                let stepped0 = apply_record(m, g, r0, gen, pos, end);
                lemma_replay_seg_append(s, gen, stepped0.0, stepped0.1, end, rec);
            } else {
                assert(replay_seg(s, gen, m, g, pos).2 == pos);
                assert(sdec_record(s, s.len() as int) is Truncated);
                assert(false);
            }
        },
        _ => {
            assert(pos == s.len());
            assert(t.subrange(pos, pos + enc_record(rec).len()) =~= enc_record(rec));
            lemma_dec_enc_record(t, pos, rec);
            let stepped = apply_record(m, g, rec, gen, pos, pos + enc_record(rec).len());
            lemma_replay_seg_at_end(t, gen, stepped.0, stepped.1);
        },
    }
}

/// Appending one encoded record to the last segment steps the whole replay
/// by exactly that record.
pub proof fn lemma_replay_append_last(segs: Seq<Seq<u8>>, rec: RecordView)
    requires
        segs.len() >= 1,
        ({
            let pre = replay_upto(segs, segs.len() - 1);
            replay_seg(segs.last(), segs.len() as int, pre.0, pre.1, 0).2 == segs.last().len()
        }),
    ensures
        ({
            let pre = replay_upto(segs, segs.len() - 1);
            let base = replay_seg(segs.last(), segs.len() as int, pre.0, pre.1, 0);
            let off = segs.last().len() as int;
            let stepped = apply_record(
                base.0,
                base.1,
                rec,
                segs.len() as int,
                off,
                off + enc_record(rec).len(),
            );
            let segs2 = segs.update(segs.len() - 1, segs.last() + enc_record(rec));
            replay_upto(segs2, segs2.len() as int) == (stepped.0, stepped.1) && ({
                let pre2 = replay_upto(segs2, segs2.len() - 1);
                replay_seg(segs2.last(), segs2.len() as int, pre2.0, pre2.1, 0).2
                    == segs2.last().len()
            })
        }),
{
    let n = segs.len() as int;
    let segs2 = segs.update(n - 1, segs.last() + enc_record(rec));
    lemma_replay_upto_congruence(segs2, segs, n - 1);
    let pre = replay_upto(segs, n - 1);
    lemma_replay_seg_append(segs.last(), n, pre.0, pre.1, 0, rec);
    assert(segs2[n - 1] == segs.last() + enc_record(rec));
}

/// A fresh empty segment appended after fully-replayed segments leaves the
/// replay state unchanged, and is itself fully parsed.
pub proof fn lemma_replay_push_empty(segs: Seq<Seq<u8>>)
    ensures
        ({
            let segs2 = segs.push(Seq::<u8>::empty());
            replay_upto(segs2, segs2.len() as int) == replay_upto(segs, segs.len() as int) && ({
                let pre2 = replay_upto(segs2, segs2.len() - 1);
                replay_seg(segs2.last(), segs2.len() as int, pre2.0, pre2.1, 0).2
                    == segs2.last().len()
            })
        }),
{
    let segs2 = segs.push(Seq::<u8>::empty());
    lemma_replay_upto_congruence(segs2, segs, segs.len() as int);
    let pre = replay_upto(segs, segs.len() as int);
    lemma_replay_seg_empty((segs.len() + 1) as int, pre.0, pre.1);
    assert(segs2[segs.len() as int] == Seq::<u8>::empty());
}

} // verus!
