//! The storage engine: a segmented, append-only log held in memory, an
//! index over it, a garbage counter, and the compactor.  Disk writes are
//! recorded as effects for the I/O shell to apply; on startup the shell
//! hands back the segment files' contents and the engine replays them.

use vstd::prelude::*;
use vstd::utf8::decode_utf8;
use vstd::utf8::encode_utf8;
use vstd::utf8::valid_utf8;

use crate::codec::Record;
use crate::codec::RecordView;
use crate::codec::decode;
use crate::codec::enc_record;
use crate::codec::encode;
use crate::errors::KvError;
use crate::index::IndexEntry;
use crate::index::entry_s;
use crate::index::find_entry;
use crate::index::index_matches;
use crate::index::index_put;
use crate::index::index_remove;
use crate::index::keys_distinct;
use crate::index::lemma_live_len_take_snoc;
use crate::index::live_len;
use crate::replay::EntryS;
use crate::replay::apply_record;
use crate::replay::entry_valid;
use crate::codec::sdec_record;
use crate::replay::lemma_log_corrupt_append_last;
use crate::replay::lemma_log_corrupt_push_empty;
use crate::replay::lemma_log_corrupt_single;
use crate::replay::lemma_replay_append_last;
use crate::replay::log_corrupt;
use crate::replay::seg_stop;
use crate::replay::lemma_replay_garbage_nonneg;
use crate::replay::lemma_replay_map_valid;
use crate::replay::lemma_replay_push_empty;
use crate::replay::lemma_replay_upto_congruence;
use crate::replay::lemma_total_len_push;
use crate::replay::lemma_total_len_single;
use crate::replay::lemma_total_len_update_last;
use crate::replay::map_valid;
use crate::replay::model_of;
use crate::replay::replay_garbage;
use crate::replay::replay_map;
use crate::replay::replay_seg;
use crate::replay::replay_upto;
use crate::replay::total_len;
use crate::strconv::bytes_to_string;
use crate::strconv::string_to_bytes;

verus! {

/// Rotation cap: a segment at this size or above is sealed before the next
/// record is appended (a single record larger than the cap still goes into
/// one segment; the cap is a rotation threshold, not a hard limit).
pub const MAX_SEGMENT_SIZE: usize = 1024 * 1024;

/// Compaction trigger: once at least this many bytes are garbage, the live
/// records are rewritten into a fresh segment and the old ones retired.
pub const COMPACTION_THRESHOLD: u64 = 1024 * 1024;

/// One disk operation performed on the in-memory segments, to be applied by
/// the I/O shell to the log directory.  Generation `g` lives in file
/// `<g>.log`.
pub enum Effect {
    /// After this, file `g` exists and is empty.
    Truncate { generation: usize },
    /// The bytes were appended to file `g`.
    Append { generation: usize, bytes: Vec<u8> },
    /// File `g` is gone.
    Delete { generation: usize },
    /// File `from` was atomically moved over file `to` (which it replaces);
    /// `from` is gone.
    Rename { from: usize, to: usize },
}

/// A directory of log files: each existing generation's contents.
pub open spec fn disk_map(segs: Seq<Seq<u8>>) -> Map<int, Seq<u8>> {
    Map::new(|g: int| 1 <= g <= segs.len(), |g: int| segs[g - 1])
}

pub open spec fn apply_effect(d: Map<int, Seq<u8>>, e: Effect) -> Map<int, Seq<u8>> {
    match e {
        Effect::Truncate { generation } => d.insert(generation as int, Seq::empty()),
        Effect::Append { generation, bytes } => if d.contains_key(generation as int) {
            d.insert(generation as int, d[generation as int] + bytes@)
        } else {
            d
        },
        Effect::Delete { generation } => d.remove(generation as int),
        Effect::Rename { from, to } => if d.contains_key(from as int) {
            d.remove(from as int).insert(to as int, d[from as int])
        } else {
            d
        },
    }
}

pub open spec fn apply_effects(d: Map<int, Seq<u8>>, es: Seq<Effect>) -> Map<int, Seq<u8>>
    decreases es.len(),
{
    if es.len() == 0 {
        d
    } else {
        apply_effects(apply_effect(d, es[0]), es.drop_first())
    }
}

pub proof fn lemma_apply_effects_concat(d: Map<int, Seq<u8>>, e1: Seq<Effect>, e2: Seq<Effect>)
    ensures
        apply_effects(d, e1 + e2) == apply_effects(apply_effects(d, e1), e2),
    decreases e1.len(),
{
    if e1.len() == 0 {
        assert(e1 + e2 =~= e2);
    } else {
        assert((e1 + e2)[0] == e1[0]);
        assert((e1 + e2).drop_first() =~= e1.drop_first() + e2);
        lemma_apply_effects_concat(apply_effect(d, e1[0]), e1.drop_first(), e2);
    }
}

pub proof fn lemma_apply_effects_single(d: Map<int, Seq<u8>>, e: Effect)
    ensures
        apply_effects(d, seq![e]) == apply_effect(d, e),
{
    assert(seq![e].drop_first() =~= Seq::<Effect>::empty());
    assert(apply_effects(apply_effect(d, e), Seq::<Effect>::empty()) == apply_effect(d, e));
    assert(seq![e][0] == e);
}

/// A counter clipped to `u64`: the garbage counter saturates at the top of
/// its range, far above the compaction threshold, so saturation never
/// changes which states trigger compaction.
pub open spec fn sat64(g: int) -> u64 {
    if g > u64::MAX {
        u64::MAX
    } else if g < 0 {
        0
    } else {
        g as u64
    }
}

/// The mathematical contents of a vector of byte vectors.
pub open spec fn segs_view(v: Vec<Vec<u8>>) -> Seq<Seq<u8>> {
    Seq::new(v@.len() as nat, |i: int| v@[i]@)
}

/// The active segment is sealed before an append exactly when it is
/// non-empty and the record would push it past the cap.
pub open spec fn needs_seal(segs: Seq<Seq<u8>>, rlen: int) -> bool {
    segs.last().len() > 0 && segs.len() < usize::MAX && segs.last().len() + rlen
        > MAX_SEGMENT_SIZE as int
}

/// The segments after the rotation decision for a record of length `rlen`:
/// either unchanged, or with a fresh empty generation opened as active.
pub open spec fn sealed_for(segs: Seq<Seq<u8>>, rlen: int) -> Seq<Seq<u8>> {
    if needs_seal(segs, rlen) {
        segs.push(Seq::<u8>::empty())
    } else {
        segs
    }
}

/// How a write changes the log: rotate if needed, then append the one
/// encoded record to the active segment.  Every other segment is
/// byte-identical to before.
pub open spec fn with_record(segs: Seq<Seq<u8>>, rec: RecordView) -> Seq<Seq<u8>> {
    let base = sealed_for(segs, enc_record(rec).len() as int);
    base.update(base.len() - 1, base.last() + enc_record(rec))
}

/// The cap is a soft rotation threshold: after a write the active segment
/// is within the cap unless the one record just written exceeds it by
/// itself (a record is never split across segments and never rejected).
pub proof fn lemma_cap_is_soft(segs: Seq<Seq<u8>>, rec: RecordView)
    requires
        segs.len() >= 1,
        segs.len() < usize::MAX,
    ensures
        with_record(segs, rec).last().len() <= MAX_SEGMENT_SIZE as int || with_record(
            segs,
            rec,
        ).last() == enc_record(rec),
{
    let rlen = enc_record(rec).len() as int;
    if needs_seal(segs, rlen) {
        assert(Seq::<u8>::empty() + enc_record(rec) =~= enc_record(rec));
    } else if segs.last().len() == 0 {
        assert(segs.last() + enc_record(rec) =~= enc_record(rec));
    }
}

/// When the seal is needed, the write leaves one more generation than
/// before: crossing the cap is what makes a second log file appear.
pub proof fn lemma_seal_adds_generation(segs: Seq<Seq<u8>>, rec: RecordView)
    requires
        needs_seal(segs, enc_record(rec).len() as int),
    ensures
        with_record(segs, rec).len() == segs.len() + 1,
{
}

/// The key-value store: an in-memory mirror of the segment files, the index
/// over them, the garbage counter, and the journal of disk effects not yet
/// applied by the I/O shell.
pub struct KvStore {
    segments: Vec<Vec<u8>>,
    index: Vec<IndexEntry>,
    garbage: u64,
    effects: Vec<Effect>,
}

impl KvStore {
    /// The segment contents, generation 1 first; the last is the active
    /// segment.
    pub closed spec fn disk(self) -> Seq<Seq<u8>> {
        segs_view(self.segments)
    }

    /// The index that replaying the whole log rebuilds.
    pub open spec fn rmap(self) -> Map<Seq<u8>, EntryS> {
        replay_map(self.disk())
    }

    /// The visible contents: key bytes to live value bytes.
    pub open spec fn model(self) -> Map<Seq<u8>, Seq<u8>> {
        model_of(self.rmap())
    }

    pub closed spec fn garbage_spec(self) -> u64 {
        self.garbage
    }

    pub closed spec fn effects_seq(self) -> Seq<Effect> {
        self.effects@
    }

    /// Total bytes of the records the index points at.
    pub closed spec fn live_bytes(self) -> int {
        live_len(self.index@)
    }

    /// Well-formedness: at least one segment exists and only the last may
    /// be empty; the active (last) segment parses completely; no segment
    /// stops replay at corrupt bytes (at most a truncated tail); the index
    /// and the garbage counter are exactly what replaying the segments
    /// yields; and the live bytes never exceed the log's total size.
    pub closed spec fn wf(self) -> bool {
        let segs = self.disk();
        &&& segs.len() >= 1
        &&& forall|i: int| 0 <= i < segs.len() - 1 ==> segs[i].len() > 0
        &&& ({
            let pre = replay_upto(segs, segs.len() - 1);
            replay_seg(segs.last(), segs.len() as int, pre.0, pre.1, 0).2 == segs.last().len()
        })
        &&& !log_corrupt(segs)
        &&& keys_distinct(self.index@)
        &&& index_matches(self.index@, self.rmap())
        &&& self.garbage == sat64(replay_garbage(segs))
        &&& live_len(self.index@) <= total_len(segs)
    }

    /// How many segments (generations) currently exist.
    pub fn segment_count(&self) -> (r: usize)
        ensures
            r == self.disk().len(),
    {
        self.segments.len()
    }

    /// The byte size of segment `i` (generation `i + 1`).
    pub fn segment_size(&self, i: usize) -> (r: usize)
        requires
            i < self.disk().len(),
        ensures
            r == self.disk()[i as int].len(),
    {
        self.segments[i].len()
    }

    /// The current reclaimable byte count.
    pub fn garbage_bytes(&self) -> (r: u64)
        ensures
            r == self.garbage_spec(),
    {
        self.garbage
    }

    /// Drain the journal of disk effects for the I/O shell to apply.
    pub fn take_effects(&mut self) -> (r: Vec<Effect>)
        ensures
            r@ == old(self).effects_seq(),
            final(self).effects_seq() == Seq::<Effect>::empty(),
            final(self).disk() == old(self).disk(),
            final(self).garbage_spec() == old(self).garbage_spec(),
            final(self).live_bytes() == old(self).live_bytes(),
            old(self).wf() ==> final(self).wf(),
    {
        let r = self.effects.split_off(0);
        proof {
            assert(r@ =~= old(self).effects_seq());
            assert(self.effects@ =~= Seq::<Effect>::empty());
        }
        r
    }

    /// Replay every file's records in generation order, building the index
    /// and the garbage count, or report `CorruptRecord` if any segment
    /// stops replay at bytes that no record can begin with (a truncated
    /// tail is tolerated as that segment's end of log).
    #[verifier::rlimit(100)]
    fn replay_files(files: &Vec<Vec<u8>>) -> (r: Result<(Vec<IndexEntry>, u64), KvError>)
        ensures
            r is Ok <==> !log_corrupt(segs_view(*files)),
            r is Err ==> r matches Err(KvError::CorruptRecord),
            r matches Ok(p) ==> ({
                let fsegs = segs_view(*files);
                &&& keys_distinct(p.0@)
                &&& index_matches(p.0@, replay_map(fsegs))
                &&& p.1 == sat64(replay_garbage(fsegs))
                &&& live_len(p.0@) <= total_len(fsegs)
            }),
    {
        let ghost fsegs = segs_view(*files);
        let n = files.len();
        let mut index: Vec<IndexEntry> = Vec::new();
        let mut garbage: u64 = 0;
        let ghost mut m: Map<Seq<u8>, EntryS> = Map::empty();
        let ghost mut gs: int = 0;
        proof {
            assert(fsegs.take(0) =~= Seq::<Seq<u8>>::empty());
        }
        let mut i: usize = 0;
        while i < n
            invariant
                i <= n,
                n == files@.len(),
                fsegs == segs_view(*files),
                keys_distinct(index@),
                index_matches(index@, m),
                m == replay_upto(fsegs, i as int).0,
                gs == replay_upto(fsegs, i as int).1,
                garbage == sat64(gs),
                gs >= 0,
                live_len(index@) + gs <= total_len(fsegs.take(i as int)),
                forall|j: int|
                    0 <= j < i ==> !(sdec_record(fsegs[j], seg_stop(fsegs, j)) is Corrupt),
            decreases n - i,
        {
            let seg = &files[i];
            let gen = i + 1;
            let mut pos: usize = 0;
            let ghost m0 = m;
            let ghost g0 = gs;
            loop
                invariant_except_break
                    pos <= seg@.len(),
                    keys_distinct(index@),
                    index_matches(index@, m),
                    garbage == sat64(gs),
                    gs >= 0,
                    fsegs == segs_view(*files),
                    i < fsegs.len(),
                    gen == i + 1,
                    seg@ == fsegs[i as int],
                    m0 == replay_upto(fsegs, i as int).0,
                    g0 == replay_upto(fsegs, i as int).1,
                    replay_seg(seg@, gen as int, m0, g0, 0) == replay_seg(
                        seg@,
                        gen as int,
                        m,
                        gs,
                        pos as int,
                    ),
                    live_len(index@) + gs <= total_len(fsegs.take(i as int)) + pos,
                ensures
                    keys_distinct(index@),
                    index_matches(index@, m),
                    garbage == sat64(gs),
                    gs >= 0,
                    m == replay_seg(seg@, gen as int, m0, g0, 0).0,
                    gs == replay_seg(seg@, gen as int, m0, g0, 0).1,
                    !(sdec_record(seg@, replay_seg(seg@, gen as int, m0, g0, 0).2) is Corrupt),
                    live_len(index@) + gs <= total_len(fsegs.take(i as int)) + seg@.len(),
                decreases seg@.len() - pos,
            {
                match decode(seg, pos) {
                    Err(KvError::CorruptRecord) => {
                        proof {
                            assert(replay_seg(seg@, gen as int, m, gs, pos as int) == (
                                m,
                                gs,
                                pos as int,
                            ));
                            assert(seg_stop(fsegs, i as int) == pos as int);
                            assert(sdec_record(fsegs[i as int], seg_stop(fsegs, i as int))
                                is Corrupt);
                            assert(log_corrupt(fsegs)) by {
                                reveal(log_corrupt);
                            }
                        }
                        return Err(KvError::CorruptRecord);
                    },
                    Err(_) => {
                        proof {
                            assert(replay_seg(seg@, gen as int, m, gs, pos as int) == (
                                m,
                                gs,
                                pos as int,
                            ));
                        }
                        break ;
                    },
                    Ok((rec, end)) => {
                        let ghost m_before = m;
                        let ghost g_before = gs;
                        match rec {
                            Record::Put { key, value } => {
                                let entry = IndexEntry {
                                    key,
                                    generation: gen,
                                    offset: pos,
                                    length: end - pos,
                                    val: Ghost(value@),
                                };
                                let ghost ekey = entry.key@;
                                let ghost eent = entry_s(entry);
                                let replaced = index_put(&mut index, entry, Ghost(m));
                                proof {
                                    m = m.insert(ekey, eent);
                                }
                                match replaced {
                                    Some(l) => {
                                        garbage = garbage.saturating_add(l as u64);
                                        proof {
                                            gs = gs + l;
                                        }
                                    },
                                    None => {},
                                }
                                proof {
                                    assert(apply_record(
                                        m_before,
                                        g_before,
                                        RecordView::Put { key: ekey, value: eent.val },
                                        gen as int,
                                        pos as int,
                                        end as int,
                                    ) == (m, gs));
                                }
                            },
                            Record::Remove { key } => {
                                let removed = index_remove(&mut index, &key, Ghost(m));
                                match removed {
                                    Some(l) => {
                                        garbage = garbage.saturating_add(l as u64);
                                        proof {
                                            gs = gs + l;
                                            m = m.remove(key@);
                                        }
                                    },
                                    None => {
                                        garbage = garbage.saturating_add((end - pos) as u64);
                                        proof {
                                            gs = gs + (end - pos);
                                        }
                                    },
                                }
                                proof {
                                    assert(apply_record(
                                        m_before,
                                        g_before,
                                        RecordView::Remove { key: key@ },
                                        gen as int,
                                        pos as int,
                                        end as int,
                                    ) == (m, gs));
                                }
                            },
                        }
                        pos = end;
                    },
                }
            }
            proof {
                lemma_live_len_take_snoc_total(fsegs, i as int);
                assert(seg_stop(fsegs, i as int) == replay_seg(seg@, gen as int, m0, g0, 0).2);
            }
            i = i + 1;
        }
        proof {
            assert(fsegs.take(n as int) =~= fsegs);
            assert(!log_corrupt(fsegs)) by {
                reveal(log_corrupt);
                assert(forall|j: int|
                    0 <= j < fsegs.len() ==> !(sdec_record(fsegs[j], seg_stop(fsegs, j))
                        is Corrupt));
            }
        }
        Ok((index, garbage))
    }

    /// Rebuild a store from the contents of the segment files, generation 1
    /// first.  The directory scan stops at the first missing or empty file,
    /// so every segment handed in is non-empty.  A truncated tail in any
    /// segment (the prefix of a record that a crash mid-append leaves) is
    /// treated as that segment's end of log; bytes that no record can begin
    /// with are real corruption and fail the open with `CorruptRecord`.
    /// On success a fresh empty generation is opened as the active segment.
    pub fn open(files: Vec<Vec<u8>>) -> (r: Result<KvStore, KvError>)
        requires
            forall|i: int| 0 <= i < files@.len() ==> files@[i]@.len() > 0,
            files@.len() < usize::MAX,
        ensures
            r is Ok <==> !log_corrupt(segs_view(files)),
            r is Err ==> r matches Err(KvError::CorruptRecord),
            r matches Ok(store) ==> ({
                &&& store.wf()
                &&& store.model() == model_of(replay_map(segs_view(files)))
                &&& store.garbage_spec() == sat64(replay_garbage(segs_view(files)))
                &&& store.disk() == segs_view(files).push(Seq::<u8>::empty())
                &&& apply_effects(disk_map(segs_view(files)), store.effects_seq()) == disk_map(
                    store.disk(),
                )
            }),
    {
        let ghost fsegs = segs_view(files);
        let n = files.len();
        let (index, garbage) = match Self::replay_files(&files) {
            Ok(p) => p,
            Err(e) => {
                return Err(e);
            },
        };
        let mut segments = files;
        segments.push(Vec::new());
        let mut effects: Vec<Effect> = Vec::new();
        effects.push(Effect::Truncate { generation: n + 1 });
        let store = KvStore { segments, index, garbage, effects };
        proof {
            assert(store.disk() =~= fsegs.push(Seq::<u8>::empty()));
            lemma_replay_push_empty(fsegs);
            lemma_log_corrupt_push_empty(fsegs);
            lemma_total_len_push(fsegs, Seq::<u8>::empty());
            assert(effects@ =~= seq![Effect::Truncate { generation: (n + 1) as usize }]);
            lemma_apply_effects_single(
                disk_map(fsegs),
                Effect::Truncate { generation: (n + 1) as usize },
            );
            assert(apply_effect(disk_map(fsegs), Effect::Truncate { generation: (n + 1) as usize })
                =~= disk_map(store.disk()));
            assert(store.wf());
        }
        Ok(store)
    }

    /// Look a key up.  A hit reads the record at the indexed location; the
    /// index only ever points at `Put` records, so the value is returned,
    /// or `CorruptRecord` if its bytes are not a well-formed string.
    pub fn get(&self, key: String) -> (r: Result<Option<String>, KvError>)
        requires
            self.wf(),
        ensures
            ({
                let k = encode_utf8(key@);
                &&& !self.model().contains_key(k) ==> r == Ok::<Option<String>, KvError>(None)
                &&& self.model().contains_key(k) && valid_utf8(self.model()[k]) ==> (r matches Ok(
                    v,
                ) && v matches Some(s) && s@ == decode_utf8(self.model()[k]))
                &&& self.model().contains_key(k) && !valid_utf8(self.model()[k])
                    ==> r matches Err(KvError::CorruptRecord)
            }),
    {
        let kb = string_to_bytes(&key);
        proof {
            lemma_replay_map_valid(self.disk());
        }
        match find_entry(&self.index, &kb) {
            None => {
                Ok(None)
            },
            Some(j) => {
                proof {
                    assert(self.rmap()[kb@] == entry_s(self.index@[j as int]));
                    assert(entry_valid(self.disk(), kb@, self.rmap()[kb@]));
                }
                let generation = self.index[j].generation;
                let offset = self.index[j].offset;
                let seg = &self.segments[generation - 1];
                proof {
                    assert(seg@ == self.disk()[generation - 1]);
                }
                match decode(seg, offset) {
                    Ok((rec, _end)) => match rec {
                        Record::Put { key: _rk, value } => {
                            proof {
                                assert(value@ == self.model()[kb@]);
                            }
                            match bytes_to_string(value) {
                                Some(s) => Ok(Some(s)),
                                None => Err(KvError::CorruptRecord),
                            }
                        },
                        Record::Remove { key: _rk } => {
                            proof {
                                assert(false);
                            }
                            Err(KvError::CorruptRecord)
                        },
                    },
                    Err(_) => {
                        proof {
                            assert(false);
                        }
                        Err(KvError::CorruptRecord)
                    },
                }
            },
        }
    }
}

/// Append a copy of `src` to `dst`.
fn append_bytes(dst: &mut Vec<u8>, src: &Vec<u8>)
    ensures
        final(dst)@ == old(dst)@ + src@,
{
    let mut i: usize = 0;
    proof {
        assert(dst@ =~= old(dst)@ + src@.take(0));
    }
    while i < src.len()
        invariant
            i <= src@.len(),
            dst@ == old(dst)@ + src@.take(i as int),
        decreases src@.len() - i,
    {
        dst.push(src[i]);
        proof {
            assert(src@.take(i as int + 1) =~= src@.take(i as int).push(src@[i as int]));
            assert(dst@ =~= old(dst)@ + src@.take(i as int + 1));
        }
        i = i + 1;
    }
    proof {
        assert(src@.take(src@.len() as int) =~= src@);
    }
}

/// Round trip: after `set(k, v)` the visible contents map the UTF-8 bytes
/// of `k` to exactly the UTF-8 bytes of `v`, which decode back to `v` — so
/// `get(k)` returns `v`, by `get`'s contract.  The same holds after a close
/// and reopen against the same directory: a well-formed store's contents
/// are what replaying its log rebuilds (`lemma_recovery_idempotent`), and
/// `set`'s contract is stated against that replay model.
pub proof fn lemma_round_trip(m: Map<Seq<u8>, Seq<u8>>, k: Seq<char>, v: Seq<char>)
    ensures
        ({
            let m2 = m.insert(encode_utf8(k), encode_utf8(v));
            &&& m2.contains_key(encode_utf8(k))
            &&& valid_utf8(m2[encode_utf8(k)])
            &&& decode_utf8(m2[encode_utf8(k)]) == v
        }),
{
    vstd::utf8::encode_utf8_valid_utf8(v);
    vstd::utf8::encode_utf8_decode_utf8(v);
}

/// Overwrite: two `set`s to one key leave exactly the state of one `set`
/// of the later value, whose bytes decode back to it.  `set`'s contract
/// states this insertion whether or not a rotation or compaction ran
/// inside the call, so compaction preserves the visible value.
pub proof fn lemma_overwrite(
    m: Map<Seq<u8>, Seq<u8>>,
    k: Seq<char>,
    v1: Seq<char>,
    v2: Seq<char>,
)
    ensures
        m.insert(encode_utf8(k), encode_utf8(v1)).insert(encode_utf8(k), encode_utf8(v2))
            == m.insert(encode_utf8(k), encode_utf8(v2)),
        decode_utf8(m.insert(encode_utf8(k), encode_utf8(v2))[encode_utf8(k)]) == v2,
{
    assert(m.insert(encode_utf8(k), encode_utf8(v1)).insert(encode_utf8(k), encode_utf8(v2))
        =~= m.insert(encode_utf8(k), encode_utf8(v2)));
    vstd::utf8::encode_utf8_decode_utf8(v2);
}

/// Tombstone: after `set(k, v)` and `remove(k)` the key has no visible
/// value, so `get(k)` returns nothing; that `remove` of an absent key
/// fails with `KeyNotFound`, and only then, is `remove`'s own contract.
pub proof fn lemma_tombstone(m: Map<Seq<u8>, Seq<u8>>, k: Seq<char>, v: Seq<char>)
    ensures
        !m.insert(encode_utf8(k), encode_utf8(v)).remove(encode_utf8(k)).contains_key(
            encode_utf8(k),
        ),
{
}

/// The records the index points at never hold more bytes than the whole
/// log.  Compaction rewrites exactly those records into the new log
/// (`compact`'s contract), so the log's total size can only shrink or stay
/// equal.
pub proof fn lemma_live_bytes_bounded(s: KvStore)
    requires
        s.wf(),
    ensures
        s.live_bytes() <= total_len(s.disk()),
{
}

/// Recovery idempotence: a well-formed store's log is never corrupt, so
/// reopening it succeeds, and its visible contents are exactly what
/// replaying its segment files rebuilds - closing and reopening without
/// writes yields the same contents.  An empty active segment, which the
/// directory scan drops, changes nothing.
pub proof fn lemma_recovery_idempotent(s: KvStore)
    requires
        s.wf(),
    ensures
        !log_corrupt(s.disk()),
        model_of(replay_map(s.disk())) == s.model(),
        s.disk().last().len() == 0 ==> !log_corrupt(s.disk().drop_last()) && model_of(
            replay_map(s.disk().drop_last()),
        ) == s.model(),
{
    if s.disk().last().len() == 0 {
        let front = s.disk().drop_last();
        assert(s.disk() =~~= front.push(Seq::<u8>::empty()));
        lemma_replay_push_empty(front);
        assert(!log_corrupt(front)) by {
            reveal(log_corrupt);
            assert forall|i: int|
                0 <= i < front.len() implies !(sdec_record(front[i], seg_stop(front, i))
                is Corrupt) by {
                lemma_replay_upto_congruence(front, s.disk(), i);
                assert(front[i] == s.disk()[i]);
                assert(!(sdec_record(s.disk()[i], seg_stop(s.disk(), i)) is Corrupt));
            }
        }
    }
}

/// The log size of a prefix grows by one segment at a time.
proof fn lemma_live_len_take_snoc_total(segs: Seq<Seq<u8>>, i: int)
    requires
        0 <= i < segs.len(),
    ensures
        total_len(segs.take(i + 1)) == total_len(segs.take(i)) + segs[i].len(),
{
    assert(segs.take(i + 1).drop_last() =~= segs.take(i));
    assert(segs.take(i + 1).last() == segs[i]);
}

impl KvStore {
    /// Seal the active segment and open a fresh, empty generation.
    fn rotate(&mut self)
        requires
            old(self).wf(),
            old(self).disk().last().len() > 0,
            old(self).disk().len() < usize::MAX,
        ensures
            final(self).wf(),
            final(self).disk() == old(self).disk().push(Seq::<u8>::empty()),
            final(self).rmap() == old(self).rmap(),
            replay_garbage(final(self).disk()) == replay_garbage(old(self).disk()),
            final(self).garbage_spec() == old(self).garbage_spec(),
            final(self).index@ == old(self).index@,
            total_len(final(self).disk()) == total_len(old(self).disk()),
            final(self).effects_seq() == old(self).effects_seq().push(
                Effect::Truncate { generation: (old(self).disk().len() + 1) as usize },
            ),
            apply_effect(disk_map(old(self).disk()), final(self).effects_seq().last())
                == disk_map(final(self).disk()),
    {
        let n = self.segments.len();
        self.segments.push(Vec::new());
        self.effects.push(Effect::Truncate { generation: n + 1 });
        proof {
            assert(self.disk() =~= old(self).disk().push(Seq::<u8>::empty()));
            lemma_replay_push_empty(old(self).disk());
            lemma_log_corrupt_push_empty(old(self).disk());
            lemma_total_len_push(old(self).disk(), Seq::<u8>::empty());
            assert(apply_effect(
                disk_map(old(self).disk()),
                Effect::Truncate { generation: (n + 1) as usize },
            ) =~= disk_map(self.disk()));
            assert(self.wf());
        }
    }

    /// Append one encoded record to the active segment and journal the
    /// write.  The caller is responsible for bringing the index back in
    /// step with the new replay state.
    fn append_record(&mut self, bytes: &Vec<u8>, Ghost(recv): Ghost<RecordView>) -> (off: usize)
        requires
            old(self).wf(),
            bytes@ == enc_record(recv),
        ensures
            off == old(self).disk().last().len(),
            final(self).disk() == old(self).disk().update(
                old(self).disk().len() - 1,
                old(self).disk().last() + bytes@,
            ),
            final(self).disk().len() == old(self).disk().len(),
            final(self).index@ == old(self).index@,
            final(self).garbage_spec() == old(self).garbage_spec(),
            total_len(final(self).disk()) == total_len(old(self).disk()) + bytes@.len(),
            ({
                let stepped = apply_record(
                    old(self).rmap(),
                    replay_garbage(old(self).disk()),
                    recv,
                    old(self).disk().len() as int,
                    off as int,
                    off + bytes@.len(),
                );
                final(self).rmap() == stepped.0 && replay_garbage(final(self).disk())
                    == stepped.1
            }),
            ({
                let segs = final(self).disk();
                &&& segs.len() >= 1
                &&& forall|i: int| 0 <= i < segs.len() - 1 ==> segs[i].len() > 0
                &&& ({
                    let pre = replay_upto(segs, segs.len() - 1);
                    replay_seg(segs.last(), segs.len() as int, pre.0, pre.1, 0).2
                        == segs.last().len()
                })
            }),
            final(self).effects_seq().len() == old(self).effects_seq().len() + 1,
            final(self).effects_seq().take(old(self).effects_seq().len() as int) == old(
                self,
            ).effects_seq(),
            apply_effect(disk_map(old(self).disk()), final(self).effects_seq().last())
                == disk_map(final(self).disk()),
    {
        let n = self.segments.len();
        let mut active = match self.segments.pop() {
            Some(v) => v,
            None => {
                proof {
                    assert(false);
                }
                Vec::new()
            },
        };
        let off = active.len();
        append_bytes(&mut active, bytes);
        self.segments.push(active);
        let mut copy: Vec<u8> = Vec::new();
        append_bytes(&mut copy, bytes);
        self.effects.push(Effect::Append { generation: n, bytes: copy });
        proof {
            assert(self.disk() =~= old(self).disk().update(
                old(self).disk().len() - 1,
                old(self).disk().last() + bytes@,
            ));
            lemma_replay_append_last(old(self).disk(), recv);
            lemma_total_len_update_last(old(self).disk(), old(self).disk().last() + bytes@);
            assert(self.effects@.take(old(self).effects_seq().len() as int) =~= old(
                self,
            ).effects_seq());
            assert(apply_effect(disk_map(old(self).disk()), self.effects@.last()) =~= disk_map(
                self.disk(),
            ));
        }
        off
    }

    /// Append an encoded `Set` record for `kb` and bring the index, the
    /// garbage counter and the journal in step.
    fn commit_put(&mut self, kb: Vec<u8>, bytes: &Vec<u8>, Ghost(vbs): Ghost<Seq<u8>>)
        requires
            old(self).wf(),
            bytes@ == enc_record(RecordView::Put { key: kb@, value: vbs }),
        ensures
            final(self).wf(),
            final(self).model() == old(self).model().insert(kb@, vbs),
            final(self).disk() == old(self).disk().update(
                old(self).disk().len() - 1,
                old(self).disk().last() + bytes@,
            ),
            final(self).rmap() == old(self).rmap().insert(
                kb@,
                EntryS {
                    gen: old(self).disk().len() as int,
                    off: old(self).disk().last().len() as int,
                    len: bytes@.len() as int,
                    val: vbs,
                },
            ),
            final(self).garbage_spec() == sat64(
                replay_garbage(old(self).disk()) + (if old(self).rmap().contains_key(kb@) {
                    old(self).rmap()[kb@].len
                } else {
                    0
                }),
            ),
            final(self).effects_seq().len() == old(self).effects_seq().len() + 1,
            final(self).effects_seq().take(old(self).effects_seq().len() as int) == old(
                self,
            ).effects_seq(),
            apply_effect(disk_map(old(self).disk()), final(self).effects_seq().last())
                == disk_map(final(self).disk()),
    {
        proof {
            lemma_replay_garbage_nonneg(self.disk());
        }
        let ghost mid = *self;
        let genr = self.segments.len();
        let blen = bytes.len();
        let ghost recv = RecordView::Put { key: kb@, value: vbs };
        let off = self.append_record(bytes, Ghost(recv));
        let e = IndexEntry {
            key: kb,
            generation: genr,
            offset: off,
            length: blen,
            val: Ghost(vbs),
        };
        let ghost m_mid = mid.rmap();
        let replaced = index_put(&mut self.index, e, Ghost(m_mid));
        match replaced {
            Some(l) => {
                self.garbage = self.garbage.saturating_add(l as u64);
            },
            None => {},
        }
        proof {
            assert(self.rmap() == m_mid.insert(e.key@, entry_s(e)));
            assert(self.garbage == sat64(replay_garbage(self.disk())));
            assert(model_of(self.rmap()) =~= model_of(m_mid).insert(e.key@, vbs));
            lemma_log_corrupt_append_last(mid.disk(), recv);
            assert(self.wf());
        }
    }

    /// Rotate if this record demands it, then append it and index it: one
    /// write, stated over `with_record`.
    fn write_put(&mut self, kb: Vec<u8>, bytes: &Vec<u8>, Ghost(vbs): Ghost<Seq<u8>>)
        requires
            old(self).wf(),
            bytes@ == enc_record(RecordView::Put { key: kb@, value: vbs }),
        ensures
            final(self).wf(),
            final(self).model() == old(self).model().insert(kb@, vbs),
            ({
                let rec = RecordView::Put { key: kb@, value: vbs };
                let base = sealed_for(old(self).disk(), enc_record(rec).len() as int);
                &&& final(self).disk() == with_record(old(self).disk(), rec)
                &&& final(self).rmap() == old(self).rmap().insert(
                    kb@,
                    EntryS {
                        gen: base.len() as int,
                        off: base.last().len() as int,
                        len: bytes@.len() as int,
                        val: vbs,
                    },
                )
                &&& final(self).garbage_spec() == sat64(
                    replay_garbage(old(self).disk()) + (if old(self).rmap().contains_key(kb@) {
                        old(self).rmap()[kb@].len
                    } else {
                        0
                    }),
                )
            }),
            final(self).effects_seq().len() >= old(self).effects_seq().len(),
            final(self).effects_seq().take(old(self).effects_seq().len() as int) == old(
                self,
            ).effects_seq(),
            apply_effects(
                disk_map(old(self).disk()),
                final(self).effects_seq().skip(old(self).effects_seq().len() as int),
            ) == disk_map(final(self).disk()),
    {
        let ghost d0 = disk_map(old(self).disk());
        let ghost e0 = old(self).effects_seq();
        let blen = bytes.len();
        let n_now = self.segments.len();
        let active_len = self.segments[n_now - 1].len();
        if active_len > 0 && n_now < usize::MAX && (active_len > MAX_SEGMENT_SIZE || blen
            > MAX_SEGMENT_SIZE - active_len) {
            proof {
                assert(needs_seal(old(self).disk(), blen as int));
            }
            self.rotate();
            proof {
                assert(self.effects@.skip(e0.len() as int) =~= seq![self.effects@.last()]);
                lemma_apply_effects_single(d0, self.effects@.last());
            }
        } else {
            proof {
                assert(!needs_seal(old(self).disk(), blen as int));
                assert(self.effects@.skip(e0.len() as int) =~= Seq::<Effect>::empty());
            }
        }
        proof {
            assert(self.disk() == sealed_for(old(self).disk(), blen as int));
            assert(apply_effects(d0, self.effects@.skip(e0.len() as int)) == disk_map(
                self.disk(),
            ));
        }
        let ghost mid = *self;
        self.commit_put(kb, bytes, Ghost(vbs));
        proof {
            assert(self.effects@.skip(e0.len() as int) =~= mid.effects_seq().skip(
                e0.len() as int,
            ) + seq![self.effects@.last()]);
            lemma_apply_effects_concat(
                d0,
                mid.effects_seq().skip(e0.len() as int),
                seq![self.effects@.last()],
            );
            lemma_apply_effects_single(disk_map(mid.disk()), self.effects@.last());
            assert(self.effects@.take(e0.len() as int) =~= e0);
        }
    }

    /// Record the new value for a key: rotate the active segment if this
    /// record would push it past the cap, append exactly one `Set` record
    /// to the active segment (all other segments stay byte-identical),
    /// point the index at the new location, account the overwritten record
    /// (if any) as garbage, and compact once the garbage crosses the
    /// threshold.
    #[verifier::rlimit(100)]
    pub fn set(&mut self, key: String, value: String) -> (r: Result<(), KvError>)
        requires
            old(self).wf(),
        ensures
            final(self).wf(),
            r is Ok,
            final(self).model() == old(self).model().insert(
                encode_utf8(key@),
                encode_utf8(value@),
            ),
            final(self).garbage_spec() < COMPACTION_THRESHOLD,
            ({
                let k = encode_utf8(key@);
                let v = encode_utf8(value@);
                let rec = RecordView::Put { key: k, value: v };
                let mid = with_record(old(self).disk(), rec);
                let base = sealed_for(old(self).disk(), enc_record(rec).len() as int);
                let g2 = replay_garbage(old(self).disk()) + (if old(
                    self,
                ).rmap().contains_key(k) {
                    old(self).rmap()[k].len
                } else {
                    0
                });
                if sat64(g2) < COMPACTION_THRESHOLD {
                    // below the threshold nothing happens beyond the one write
                    &&& final(self).disk() == mid
                    &&& final(self).garbage_spec() == sat64(g2)
                    &&& final(self).rmap() == old(self).rmap().insert(
                        k,
                        EntryS {
                            gen: base.len() as int,
                            off: base.last().len() as int,
                            len: enc_record(rec).len() as int,
                            val: v,
                        },
                    )
                } else {
                    // a compaction pass ran: one fresh generation holding the
                    // live records, the garbage reset, the log no larger
                    &&& final(self).disk().len() == 1
                    &&& final(self).garbage_spec() == 0
                    &&& total_len(final(self).disk()) <= total_len(mid)
                }
            }),
            final(self).effects_seq().take(old(self).effects_seq().len() as int) == old(
                self,
            ).effects_seq(),
            apply_effects(
                disk_map(old(self).disk()),
                final(self).effects_seq().skip(old(self).effects_seq().len() as int),
            ) == disk_map(final(self).disk()),
    {
        let ghost d0 = disk_map(old(self).disk());
        let ghost e0 = old(self).effects_seq();
        let kb = string_to_bytes(&key);
        let vb = string_to_bytes(&value);
        let ghost vbs = vb@;
        let rec = Record::Put { key: kb, value: vb };
        let bytes = encode(&rec);
        let kb2 = string_to_bytes(&key);
        self.write_put(kb2, &bytes, Ghost(vbs));
        if self.garbage >= COMPACTION_THRESHOLD {
            let ghost pre_c = *self;
            self.compact();
            proof {
                assert(self.effects@.skip(e0.len() as int) =~= pre_c.effects_seq().skip(
                    e0.len() as int,
                ) + self.effects@.skip(pre_c.effects_seq().len() as int));
                lemma_apply_effects_concat(
                    d0,
                    pre_c.effects_seq().skip(e0.len() as int),
                    self.effects@.skip(pre_c.effects_seq().len() as int),
                );
                assert(self.effects@.take(e0.len() as int) =~= e0);
            }
        }
        Ok(())
    }

    /// Remove a key.  If it has no live value, fail with `KeyNotFound` and
    /// change nothing; otherwise append exactly one `Remove` record to the
    /// active segment (all other segments stay byte-identical), account
    /// the removed record as garbage, drop the index entry, and compact
    /// once the garbage crosses the threshold.
    #[verifier::rlimit(100)]
    pub fn remove(&mut self, key: String) -> (r: Result<(), KvError>)
        requires
            old(self).wf(),
        ensures
            final(self).wf(),
            old(self).model().contains_key(encode_utf8(key@)) ==> ({
                let k = encode_utf8(key@);
                let rec = RecordView::Remove { key: k };
                let mid = old(self).disk().update(
                    old(self).disk().len() - 1,
                    old(self).disk().last() + enc_record(rec),
                );
                let g2 = replay_garbage(old(self).disk()) + old(self).rmap()[k].len;
                &&& r is Ok
                &&& final(self).model() == old(self).model().remove(k)
                &&& final(self).garbage_spec() < COMPACTION_THRESHOLD
                &&& if sat64(g2) < COMPACTION_THRESHOLD {
                    // below the threshold nothing happens beyond the one write
                    &&& final(self).disk() == mid
                    &&& final(self).garbage_spec() == sat64(g2)
                    &&& final(self).rmap() == old(self).rmap().remove(k)
                } else {
                    // a compaction pass ran: one fresh generation holding the
                    // live records, the garbage reset, the log no larger
                    &&& final(self).disk().len() == 1
                    &&& final(self).garbage_spec() == 0
                    &&& total_len(final(self).disk()) <= total_len(mid)
                }
            }),
            !old(self).model().contains_key(encode_utf8(key@)) ==> ({
                &&& (r matches Err(KvError::KeyNotFound { key: k }) && k@ == key@)
                &&& *final(self) == *old(self)
            }),
            final(self).effects_seq().take(old(self).effects_seq().len() as int) == old(
                self,
            ).effects_seq(),
            apply_effects(
                disk_map(old(self).disk()),
                final(self).effects_seq().skip(old(self).effects_seq().len() as int),
            ) == disk_map(final(self).disk()),
    {
        let ghost d0 = disk_map(old(self).disk());
        let ghost e0 = old(self).effects_seq();
        let kb = string_to_bytes(&key);
        match find_entry(&self.index, &kb) {
            None => {
                proof {
                    assert(self.effects@.skip(e0.len() as int) =~= Seq::<Effect>::empty());
                    assert(self.effects@.take(e0.len() as int) =~= e0);
                }
                Err(KvError::KeyNotFound { key })
            },
            Some(_j) => {
                proof {
                    lemma_replay_garbage_nonneg(self.disk());
                }
                let kb2 = string_to_bytes(&key);
                let rec = Record::Remove { key: kb2 };
                let bytes = encode(&rec);
                let ghost mid = *self;
                let _off = self.append_record(&bytes, Ghost(rec@));
                proof {
                    assert(self.effects@.skip(e0.len() as int) =~= seq![self.effects@.last()]);
                    lemma_apply_effects_single(d0, self.effects@.last());
                }
                let ghost m_mid = mid.rmap();
                let removed = index_remove(&mut self.index, &kb, Ghost(m_mid));
                match removed {
                    Some(l) => {
                        self.garbage = self.garbage.saturating_add(l as u64);
                    },
                    None => {
                        proof {
                            assert(false);
                        }
                    },
                }
                proof {
                    assert(self.rmap() == m_mid.remove(kb@));
                    assert(self.garbage == sat64(replay_garbage(self.disk())));
                    assert(model_of(self.rmap()) =~= model_of(m_mid).remove(kb@));
                    lemma_log_corrupt_append_last(mid.disk(), rec@);
                    assert(self.wf());
                }
                if self.garbage >= COMPACTION_THRESHOLD {
                    let ghost pre_c = *self;
                    self.compact();
                    proof {
                        assert(self.effects@.skip(e0.len() as int) =~= pre_c.effects_seq().skip(
                            e0.len() as int,
                        ) + self.effects@.skip(pre_c.effects_seq().len() as int));
                        lemma_apply_effects_concat(
                            d0,
                            pre_c.effects_seq().skip(e0.len() as int),
                            self.effects@.skip(pre_c.effects_seq().len() as int),
                        );
                    }
                }
                Ok(())
            },
        }
    }

    /// Rewrite every live record into a fresh segment, which becomes the
    /// sole (and active) generation 1, and retire all older files.  The
    /// visible contents are unchanged, the garbage counter is reset, and
    /// the log never grows: the new log is exactly the live bytes.
    fn compact(&mut self)
        requires
            old(self).wf(),
        ensures
            final(self).wf(),
            final(self).model() == old(self).model(),
            final(self).garbage_spec() == 0,
            total_len(final(self).disk()) <= total_len(old(self).disk()),
            final(self).disk().len() == 1,
            final(self).effects_seq().len() >= old(self).effects_seq().len(),
            final(self).effects_seq().take(old(self).effects_seq().len() as int) == old(
                self,
            ).effects_seq(),
            apply_effects(
                disk_map(old(self).disk()),
                final(self).effects_seq().skip(old(self).effects_seq().len() as int),
            ) == disk_map(final(self).disk()),
    {
        proof {
            lemma_replay_map_valid(self.disk());
        }
        let ghost m_old = self.rmap();
        let old_n = self.segments.len();
        let mut new_seg: Vec<u8> = Vec::new();
        let mut new_bytes: Vec<u8> = Vec::new();
        let mut new_index: Vec<IndexEntry> = Vec::new();
        let ghost mut nm: Map<Seq<u8>, EntryS> = Map::empty();
        let mut i: usize = 0;
        while i < self.index.len()
            invariant
                *self == *old(self),
                old(self).wf(),
                map_valid(self.disk(), self.rmap()),
                i <= self.index@.len(),
                new_index@.len() == i,
                new_bytes@ == new_seg@,
                keys_distinct(new_index@),
                index_matches(new_index@, nm),
                replay_seg(new_seg@, 1, Map::empty(), 0, 0) == (nm, 0int, new_seg@.len() as int),
                forall|j: int|
                    0 <= j < i ==> new_index@[j].key@ == self.index@[j].key@ && new_index@[j].val@
                        == self.index@[j].val@,
                live_len(new_index@) == new_seg@.len(),
                live_len(new_index@) == live_len(self.index@.take(i as int)),
            decreases self.index@.len() - i,
        {
            let generation = self.index[i].generation;
            let offset = self.index[i].offset;
            let ghost cur_key = self.index@[i as int].key@;
            proof {
                assert(self.rmap().contains_key(cur_key) && self.rmap()[cur_key] == entry_s(
                    self.index@[i as int],
                ));
                assert(entry_valid(self.disk(), cur_key, self.rmap()[cur_key]));
            }
            let seg = &self.segments[generation - 1];
            proof {
                assert(seg@ == self.disk()[generation - 1]);
            }
            let (rec, _end) = match decode(seg, offset) {
                Ok(p) => p,
                Err(_) => {
                    proof {
                        assert(false);
                    }
                    (Record::Remove { key: Vec::new() }, 0)
                },
            };
            let bytes = encode(&rec);
            proof {
                crate::codec::lemma_sdec_record_sound(seg@, offset as int);
                assert(bytes@.len() == self.index@[i as int].length);
            }
            let off2 = new_seg.len();
            let ghost seg_before = new_seg@;
            append_bytes(&mut new_seg, &bytes);
            append_bytes(&mut new_bytes, &bytes);
            proof {
                crate::replay::lemma_replay_seg_append(seg_before, 1, Map::empty(), 0, 0, rec@);
            }
            match rec {
                Record::Put { key, value } => {
                    let e2 = IndexEntry {
                        key,
                        generation: 1,
                        offset: off2,
                        length: bytes.len(),
                        val: Ghost(value@),
                    };
                    let ghost ekey = e2.key@;
                    let ghost eent = entry_s(e2);
                    let ghost ni_before = new_index@;
                    let replaced = index_put(&mut new_index, e2, Ghost(nm));
                    proof {
                        if replaced is Some {
                            let j = choose|j: int|
                                0 <= j < ni_before.len() && ni_before[j].key@ == ekey;
                            assert(self.index@[j].key@ == self.index@[i as int].key@);
                            assert(false);
                        }
                        nm = nm.insert(ekey, eent);
                        lemma_live_len_take_snoc(self.index@, i as int);
                    }
                },
                Record::Remove { key: _k } => {
                    proof {
                        assert(false);
                    }
                },
            }
            i = i + 1;
        }
        proof {
            assert(self.index@.take(self.index@.len() as int) =~= self.index@);
        }
        // the rebuilt index holds exactly the live keys with their values
        proof {
            assert forall|k: Seq<u8>| nm.contains_key(k) implies m_old.contains_key(k)
                && nm[k].val == m_old[k].val by {
                let j = choose|j: int| 0 <= j < new_index@.len() && new_index@[j].key@ == k;
                assert(new_index@[j].val@ == self.index@[j].val@);
                assert(self.rmap()[self.index@[j].key@] == entry_s(self.index@[j]));
                assert(nm[k] == entry_s(new_index@[j]));
            }
            assert forall|k: Seq<u8>| m_old.contains_key(k) implies nm.contains_key(k) by {
                let j = choose|j: int| 0 <= j < self.index@.len() && self.index@[j].key@ == k;
                assert(new_index@[j].key@ == k);
            }
            assert(model_of(nm) =~= model_of(m_old));
        }
        let ghost d0 = disk_map(old(self).disk());
        let ghost e0 = old(self).effects_seq();
        let ghost nv = new_bytes@;
        let mut segments2: Vec<Vec<u8>> = Vec::new();
        segments2.push(new_seg);
        self.segments = segments2;
        self.index = new_index;
        self.garbage = 0;
        let ghost gsegs = self.segments@;
        let ghost gindex = self.index@;
        proof {
            assert(self.disk() =~= seq![nv]);
            lemma_total_len_single(nv);
            assert(replay_upto(self.disk(), 0) == (Map::<Seq<u8>, EntryS>::empty(), 0int));
            assert(self.disk()[0] == nv);
            assert(self.disk().last() == nv);
            assert(self.rmap() == nm);
            lemma_log_corrupt_single(nv);
            assert(self.disk() =~~= seq![nv]);
            assert(self.wf());
            assert(self.model() == old(self).model());
            assert(total_len(self.disk()) <= total_len(old(self).disk()));
        }
        // journal: stage the compacted bytes in the scratch file `0.log`
        // (which the startup scan never reads), adopt them atomically over
        // generation 1, and only then retire the older files.  No
        // data-bearing file is destroyed before its replacement is durably
        // on disk: after any prefix of this journal the scan still finds
        // either the old contiguous log, or the adopted generation 1 whose
        // records supersede whatever older files remain
        self.effects.push(Effect::Truncate { generation: 0 });
        proof {
            assert(self.effects@.take(e0.len() as int) =~= e0);
            assert(self.effects@.skip(e0.len() as int) =~= seq![
                Effect::Truncate { generation: 0usize },
            ]);
            lemma_apply_effects_single(d0, Effect::Truncate { generation: 0usize });
        }
        let ghost e1 = self.effects@;
        let ghost d1 = apply_effects(d0, e1.skip(e0.len() as int));
        let eff_append = Effect::Append { generation: 0, bytes: new_bytes };
        let ghost geff = eff_append;
        self.effects.push(eff_append);
        proof {
            assert(self.effects@.take(e0.len() as int) =~= e0);
            assert(self.effects@.skip(e0.len() as int) =~= e1.skip(e0.len() as int) + seq![geff]);
            lemma_apply_effects_concat(d0, e1.skip(e0.len() as int), seq![geff]);
            lemma_apply_effects_single(d1, geff);
            assert(d1.contains_key(0));
            assert(d1[0] + nv =~= nv);
        }
        let ghost e2 = self.effects@;
        let ghost d2 = apply_effects(d0, e2.skip(e0.len() as int));
        self.effects.push(Effect::Rename { from: 0, to: 1 });
        proof {
            let eff2 = Effect::Rename { from: 0usize, to: 1usize };
            assert(self.effects@.take(e0.len() as int) =~= e0);
            assert(self.effects@.skip(e0.len() as int) =~= e2.skip(e0.len() as int) + seq![eff2]);
            lemma_apply_effects_concat(d0, e2.skip(e0.len() as int), seq![eff2]);
            lemma_apply_effects_single(d2, eff2);
            assert(d2 == d1.insert(0, nv));
            assert(d2.contains_key(0) && d2[0] == nv);
        }
        let ghost mut dcur = apply_effects(d0, self.effects@.skip(e0.len() as int));
        proof {
            assert(dcur == d2.remove(0).insert(1, nv));
            assert(forall|k: int| dcur.contains_key(k) <==> (k == 1 || 2 <= k <= old_n));
            assert(dcur[1] == nv);
        }
        let mut gi: usize = 1;
        while gi < old_n
            invariant
                1 <= gi,
                gi <= old_n || old_n == 0,
                self.segments@ == gsegs,
                self.index@ == gindex,
                self.garbage == 0,
                e0.len() <= self.effects@.len(),
                self.effects@.take(e0.len() as int) == e0,
                apply_effects(d0, self.effects@.skip(e0.len() as int)) == dcur,
                forall|k: int| dcur.contains_key(k) <==> (k == 1 || gi + 1 <= k <= old_n),
                dcur[1] == nv,
            decreases old_n - gi,
        {
            let ghost ep = self.effects@;
            let ghost dp = dcur;
            let eff = Effect::Delete { generation: gi + 1 };
            let ghost geff2 = eff;
            self.effects.push(eff);
            proof {
                assert(self.effects@.take(e0.len() as int) =~= e0);
                assert(self.effects@.skip(e0.len() as int) =~= ep.skip(e0.len() as int) + seq![
                    geff2,
                ]);
                lemma_apply_effects_concat(d0, ep.skip(e0.len() as int), seq![geff2]);
                lemma_apply_effects_single(dp, geff2);
                dcur = dp.remove(gi + 1 as int);
            }
            gi = gi + 1;
        }
                proof {
            assert(dcur =~= disk_map(self.disk()));
        }
    }
}

} // verus!
