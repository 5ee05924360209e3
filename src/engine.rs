//! The engine's decisions: rebuilding the mapping from a log's bytes, and the
//! records that `set` and `del` append. Whoever holds the log file writes a
//! record and, once the write has succeeded, commits it here.
use crate::bytes::u32_le;
use crate::entry::{
    entry_bytes, entry_encodable, lemma_entry_round_trip, lemma_parse_entry_prefix,
    lemma_parse_entry_take, parse_entry,
    payload_bytes, crc32_of, Entry, EntryModel, HEADER_LEN,
};
use crate::kv::KV;
use vstd::prelude::*;
use vstd::slice::slice_subrange;

verus! {

/// The mapping after one record: a tombstone removes its key, any other record sets it.
pub open spec fn apply_entry(m: Map<Seq<u8>, Seq<u8>>, e: EntryModel) -> Map<Seq<u8>, Seq<u8>> {
    if e.deleted {
        m.remove(e.key)
    } else {
        m.insert(e.key, e.val)
    }
}

/// `m` after every record of `s`, in order, up to the first that cannot be read.
pub open spec fn replay_from(m: Map<Seq<u8>, Seq<u8>>, s: Seq<u8>) -> Map<Seq<u8>, Seq<u8>>
    decreases s.len(),
{
    match parse_entry(s) {
        Ok((e, n)) => if 0 < n <= s.len() {
            replay_from(apply_entry(m, e), s.skip(n as int))
        } else {
            m
        },
        Err(_) => m,
    }
}

/// The mapping that a log's bytes hold.
pub open spec fn replay(s: Seq<u8>) -> Map<Seq<u8>, Seq<u8>> {
    replay_from(Map::empty(), s)
}

/// How many bytes at the front of `s` are whole, valid records.
pub open spec fn valid_len(s: Seq<u8>) -> nat
    decreases s.len(),
{
    match parse_entry(s) {
        Ok((e, n)) => if 0 < n <= s.len() {
            n + valid_len(s.skip(n as int))
        } else {
            0
        },
        Err(_) => 0,
    }
}

/// Whether every byte of `s` belongs to a valid record.
pub open spec fn clean(s: Seq<u8>) -> bool {
    valid_len(s) == s.len()
}

/// A mutation of the engine.
pub enum Op {
    Put(Seq<u8>, Seq<u8>),
    Delete(Seq<u8>),
}

/// Whether the record format can hold the keys and values of `op`.
pub open spec fn op_encodable(op: Op) -> bool {
    match op {
        Op::Put(k, v) => k.len() <= u32::MAX && v.len() <= u32::MAX,
        Op::Delete(k) => k.len() <= u32::MAX,
    }
}

/// `m` after `op`, as a plain mapping does it.
pub open spec fn apply_op(m: Map<Seq<u8>, Seq<u8>>, op: Op) -> Map<Seq<u8>, Seq<u8>> {
    match op {
        Op::Put(k, v) => m.insert(k, v),
        Op::Delete(k) => m.remove(k),
    }
}

/// `m` after every op of `ops`, in order.
pub open spec fn apply_ops(m: Map<Seq<u8>, Seq<u8>>, ops: Seq<Op>) -> Map<Seq<u8>, Seq<u8>>
    decreases ops.len(),
{
    if ops.len() == 0 {
        m
    } else {
        apply_ops(apply_op(m, ops[0]), ops.drop_first())
    }
}

/// The live record that sets `k` to `v`.
pub open spec fn set_entry(k: Seq<u8>, v: Seq<u8>) -> EntryModel {
    EntryModel { key: k, val: v, deleted: false }
}

/// The tombstone of `k`.
pub open spec fn del_entry(k: Seq<u8>) -> EntryModel {
    EntryModel { key: k, val: Seq::empty(), deleted: true }
}

/// The bytes that the engine appends for `op` when its mapping is `m`: a deletion
/// of an absent key appends nothing.
pub open spec fn op_record(m: Map<Seq<u8>, Seq<u8>>, op: Op) -> Seq<u8> {
    match op {
        Op::Put(k, v) => entry_bytes(set_entry(k, v)),
        Op::Delete(k) => if m.contains_key(k) {
            entry_bytes(del_entry(k))
        } else {
            Seq::empty()
        },
    }
}

/// The bytes that the engine appends for `ops`, in order, starting from mapping `m`.
pub open spec fn ops_log(m: Map<Seq<u8>, Seq<u8>>, ops: Seq<Op>) -> Seq<u8>
    decreases ops.len(),
{
    if ops.len() == 0 {
        Seq::empty()
    } else {
        op_record(m, ops[0]) + ops_log(apply_op(m, ops[0]), ops.drop_first())
    }
}

proof fn lemma_replay_err(m: Map<Seq<u8>, Seq<u8>>, s: Seq<u8>)
    requires
        parse_entry(s) is Err,
    ensures
        replay_from(m, s) == m,
        valid_len(s) == 0,
{
}

proof fn lemma_replay_empty(m: Map<Seq<u8>, Seq<u8>>)
    ensures
        replay_from(m, Seq::empty()) == m,
        valid_len(Seq::empty()) == 0,
{
    lemma_replay_err(m, Seq::empty());
}

/// A log that holds one whole record, and nothing else, is clean and applies that record.
proof fn lemma_replay_single(m: Map<Seq<u8>, Seq<u8>>, t: Seq<u8>)
    requires
        parse_entry(t) is Ok,
        parse_entry(t)->Ok_0.1 == t.len(),
    ensures
        replay_from(m, t) == apply_entry(m, parse_entry(t)->Ok_0.0),
        clean(t),
{
    let (e, n) = parse_entry(t)->Ok_0;
    lemma_parse_entry_prefix(t, Seq::empty());
    assert(t.skip(n as int) =~= Seq::<u8>::empty());
    lemma_replay_empty(apply_entry(m, e));
}

/// Replaying a clean log and then more bytes is replaying the first, then the rest.
proof fn lemma_replay_append(m: Map<Seq<u8>, Seq<u8>>, s: Seq<u8>, t: Seq<u8>)
    requires
        clean(s),
    ensures
        replay_from(m, s + t) == replay_from(replay_from(m, s), t),
        valid_len(s + t) == s.len() + valid_len(t),
    decreases s.len(),
{
    if s.len() == 0 {
        assert(s + t =~= t);
    } else {
        if parse_entry(s) is Err {
            assert(false);
        }
        lemma_parse_entry_prefix(s, t);
        let (e, n) = parse_entry(s)->Ok_0;
        assert((s + t).skip(n as int) =~= s.skip(n as int) + t);
        lemma_replay_append(apply_entry(m, e), s.skip(n as int), t);
    }
}

/// One record appended to a clean log is read back and applied.
proof fn lemma_replay_one(m: Map<Seq<u8>, Seq<u8>>, s: Seq<u8>, e: EntryModel)
    requires
        clean(s),
        entry_encodable(e),
    ensures
        replay_from(m, s + entry_bytes(e)) == apply_entry(replay_from(m, s), e),
        clean(s + entry_bytes(e)),
{
    lemma_replay_append(m, s, entry_bytes(e));
    lemma_entry_round_trip(e, Seq::empty());
    let b = entry_bytes(e);
    assert(b + Seq::<u8>::empty() =~= b);
    assert(b.skip(b.len() as int) =~= Seq::<u8>::empty());
    lemma_replay_empty(apply_entry(replay_from(m, s), e));
}

/// Update semantics: setting a key that has a value reports that it existed,
/// and afterwards the key maps to the new value alone.
pub proof fn law_update_semantics(m: Map<Seq<u8>, Seq<u8>>, k: Seq<u8>, v: Seq<u8>)
    requires
        m.contains_key(k),
    ensures
        apply_op(m, Op::Put(k, v)).contains_key(k),
        apply_op(m, Op::Put(k, v))[k] == v,
        apply_op(m, Op::Put(k, v)).dom() == m.dom(),
{
    assert(m.insert(k, v).dom() =~= m.dom());
}

/// Idempotent delete: deleting a key that has no value appends nothing to the
/// log and leaves the mapping as it was.
pub proof fn law_idempotent_delete(m: Map<Seq<u8>, Seq<u8>>, k: Seq<u8>)
    requires
        !m.contains_key(k),
    ensures
        op_record(m, Op::Delete(k)).len() == 0,
        apply_op(m, Op::Delete(k)) == m,
{
    assert(m.remove(k) =~= m);
}

/// Replay equivalence: appending to a clean log the records that the engine
/// writes for a sequence of sets and deletes, then replaying it, gives the same
/// mapping as applying those operations to the log's mapping directly, and the
/// log stays clean. With the empty log, this is a fresh engine.
pub proof fn law_replay_equivalence(log: Seq<u8>, ops: Seq<Op>)
    requires
        clean(log),
        forall|i: int| 0 <= i < ops.len() ==> op_encodable(#[trigger] ops[i]),
    ensures
        replay(log + ops_log(replay(log), ops)) == apply_ops(replay(log), ops),
        clean(log + ops_log(replay(log), ops)),
    decreases ops.len(),
{
    if ops.len() == 0 {
        assert(log + ops_log(replay(log), ops) =~= log);
    } else {
        let op = ops[0];
        assert(op_encodable(ops[0]));
        let m = replay(log);
        let log1 = log + op_record(m, op);
        match op {
            Op::Put(k, v) => {
                lemma_replay_one(Map::empty(), log, set_entry(k, v));
            },
            Op::Delete(k) => {
                if m.contains_key(k) {
                    lemma_replay_one(Map::empty(), log, del_entry(k));
                } else {
                    assert(log1 =~= log);
                    assert(m.remove(k) =~= m);
                }
            },
        }
        assert(replay(log1) == apply_op(m, op));
        let rest = ops.drop_first();
        assert forall|i: int| 0 <= i < rest.len() implies op_encodable(#[trigger] rest[i]) by {
            assert(rest[i] == ops[i + 1]);
        }
        law_replay_equivalence(log1, rest);
        assert(log1 + ops_log(replay(log1), rest) =~= log + ops_log(m, ops));
    }
}

/// Crash-tail tolerance: after a clean log, a record cut short at any point,
/// or a whole record whose checksum is not that of its payload, changes
/// nothing that replay reads.
pub proof fn law_crash_tail(log: Seq<u8>, e: EntryModel, cut: nat, crc: u32)
    requires
        clean(log),
        entry_encodable(e),
    ensures
        cut < entry_bytes(e).len() ==> replay(log + entry_bytes(e).take(cut as int)) == replay(
            log,
        ) && valid_len(log + entry_bytes(e).take(cut as int)) == log.len(),
        crc != crc32_of(payload_bytes(e)) ==> replay(log + (u32_le(crc) + payload_bytes(e)))
            == replay(log) && valid_len(log + (u32_le(crc) + payload_bytes(e))) == log.len(),
{
    let b = entry_bytes(e);
    let p = payload_bytes(e);
    let kl = e.key.len() as int;
    let vl = e.val.len() as int;
    crate::bytes::lemma_u32_round_trip(kl as u32);
    crate::bytes::lemma_u32_round_trip(vl as u32);
    if cut < b.len() {
        let t = b.take(cut as int);
        if cut >= HEADER_LEN {
            assert(t.subrange(4, 8) =~= u32_le(kl as u32));
            assert(t.subrange(8, 12) =~= u32_le(vl as u32));
        }
        assert(parse_entry(t) is Err);
        lemma_replay_append(Map::empty(), log, t);
        lemma_replay_err(replay(log), t);
    }
    if crc != crc32_of(p) {
        let t = u32_le(crc) + p;
        crate::bytes::lemma_u32_round_trip(crc);
        assert(t.subrange(0, 4) =~= u32_le(crc));
        assert(t.subrange(4, 8) =~= u32_le(kl as u32));
        assert(t.subrange(8, 12) =~= u32_le(vl as u32));
        assert(t.subrange(4, 13 + kl + vl) =~= p);
        assert(parse_entry(t) is Err);
        lemma_replay_append(Map::empty(), log, t);
        lemma_replay_err(replay(log), t);
    }
}

/// The engine's state between calls: the live mapping, and the records it
/// accounts for, in the order they were replayed or appended.
pub struct Engine {
    kv: KV,
    records: Ghost<Seq<u8>>,
}

impl View for Engine {
    type V = Map<Seq<u8>, Seq<u8>>;

    closed spec fn view(&self) -> Map<Seq<u8>, Seq<u8>> {
        self.kv@
    }
}

impl Engine {
    /// The mapping is exactly what replaying the records gives, and the records
    /// are all valid.
    pub closed spec fn wf(&self) -> bool {
        &&& self.kv.wf()
        &&& clean(self.records@)
        &&& self.kv@ == replay(self.records@)
    }

    /// The bytes of the records this state accounts for.
    pub closed spec fn records(&self) -> Seq<u8> {
        self.records@
    }

    /// Rebuilds the mapping from a log's bytes, stopping silently at the first
    /// record that is cut short or fails its checksum; returns the state and the
    /// number of bytes of valid records.
    pub fn recover(data: &[u8]) -> (r: (Engine, usize))
        ensures
            r.0.wf(),
            r.0@ == replay(data@),
            r.1 == valid_len(data@),
            r.0.records() == data@.take(r.1 as int),
    {
        let mut kv = KV::empty();
        let mut pos: usize = 0;
        let ghost m0 = Map::<Seq<u8>, Seq<u8>>::empty();
        proof {
            lemma_replay_empty(m0);
            assert(data@.take(0) =~= Seq::<u8>::empty());
            assert(data@.skip(0) =~= data@);
        }
        loop
            invariant
                kv.wf(),
                pos <= data@.len(),
                replay_from(kv@, data@.skip(pos as int)) == replay(data@),
                pos + valid_len(data@.skip(pos as int)) == valid_len(data@),
                clean(data@.take(pos as int)),
                kv@ == replay(data@.take(pos as int)),
            decreases data@.len() - pos,
        {
            let rest = slice_subrange(data, pos, data.len());
            match Entry::decode(rest) {
                Ok((e, n)) => {
                    let ghost prefix = data@.take(pos as int);
                    proof {
                        lemma_parse_entry_prefix(rest@, Seq::empty());
                        assert(data@.skip(pos as int) =~= rest@);
                        assert(rest@.skip(n as int) =~= data@.skip(pos + n));
                        lemma_parse_entry_take(rest@);
                        let t = rest@.take(n as int);
                        assert(data@.take(pos + n) =~= prefix + t);
                        lemma_replay_single(replay(prefix), t);
                        lemma_replay_append(Map::empty(), prefix, t);
                    }
                    if e.is_deleted() {
                        kv.remove(e.key());
                    } else {
                        kv.insert(e.key(), e.value());
                    }
                    pos = pos + n;
                },
                Err(_) => {
                    proof {
                        assert(data@.skip(pos as int) =~= rest@);
                        lemma_replay_err(kv@, rest@);
                    }
                    return (Engine { kv, records: Ghost(data@.take(pos as int)) }, pos);
                },
            }
        }
    }

    /// The current value of `key`, if it has one; the log is not read.
    pub fn get(&self, key: &[u8]) -> (r: Option<Vec<u8>>)
        requires
            self.wf(),
        ensures
            match r {
                Some(v) => self@.contains_key(key@) && v@ == self@[key@],
                None => !self@.contains_key(key@),
            },
    {
        self.kv.lookup(key)
    }

    /// The record to append before `key` is set to `val`.
    pub fn set_record(&self, key: &[u8], val: &[u8]) -> (r: Vec<u8>)
        requires
            key@.len() <= u32::MAX,
            val@.len() <= u32::MAX,
        ensures
            r@ == op_record(self@, Op::Put(key@, val@)),
    {
        let e = Entry::new(vstd::slice::slice_to_vec(key), vstd::slice::slice_to_vec(val));
        e.encode()
    }

    /// The record to append before `key` is deleted: none where `key` has no value.
    pub fn del_record(&self, key: &[u8]) -> (r: Option<Vec<u8>>)
        requires
            self.wf(),
            key@.len() <= u32::MAX,
        ensures
            match r {
                Some(b) => self@.contains_key(key@) && b@ == op_record(self@, Op::Delete(key@)),
                None => !self@.contains_key(key@) && op_record(self@, Op::Delete(key@))
                    == Seq::<u8>::empty(),
            },
    {
        if self.kv.contains(key) {
            let e = Entry::tombstone(vstd::slice::slice_to_vec(key));
            Some(e.encode())
        } else {
            None
        }
    }

    /// Sets `key` to `val` once its record has been appended; returns whether
    /// `key` had a value before.
    pub fn commit_set(&mut self, key: &[u8], val: &[u8]) -> (existed: bool)
        requires
            old(self).wf(),
            key@.len() <= u32::MAX,
            val@.len() <= u32::MAX,
        ensures
            final(self).wf(),
            existed == old(self)@.contains_key(key@),
            final(self)@ == old(self)@.insert(key@, val@),
            final(self).records() == old(self).records() + op_record(
                old(self)@,
                Op::Put(key@, val@),
            ),
    {
        proof {
            lemma_replay_one(Map::empty(), self.records@, set_entry(key@, val@));
        }
        let existed = self.kv.insert(key, val);
        self.records = Ghost(self.records@ + entry_bytes(set_entry(key@, val@)));
        existed
    }

    /// Deletes `key` once its record, if any, has been appended; returns whether
    /// `key` had a value. Where it had none, nothing changes.
    pub fn commit_del(&mut self, key: &[u8]) -> (existed: bool)
        requires
            old(self).wf(),
            key@.len() <= u32::MAX,
        ensures
            final(self).wf(),
            existed == old(self)@.contains_key(key@),
            final(self)@ == old(self)@.remove(key@),
            final(self).records() == old(self).records() + op_record(
                old(self)@,
                Op::Delete(key@),
            ),
    {
        if self.kv.contains(key) {
            proof {
                lemma_replay_one(Map::empty(), self.records@, del_entry(key@));
            }
            self.kv.remove(key);
            self.records = Ghost(self.records@ + entry_bytes(del_entry(key@)));
            true
        } else {
            assert(self.records@ + Seq::<u8>::empty() =~= self.records@);
            assert(self.kv@.remove(key@) =~= self.kv@);
            false
        }
    }
}

} // verus!
