//! The log-structured storage engine: a durable key-to-value mapping built
//! from numbered append-only log files, an in-memory index, and a
//! stale-byte counter that triggers compaction.

use vstd::prelude::*;

use crate::codec::{
    decode_command, encode_cmd, encode_command, encode_log, lemma_encode_log_snoc,
    lemma_parse_cmd_complete, lemma_parse_cmd_sound, lemma_parse_log_complete,
    lemma_parse_log_sound, parse_cmd, parse_log,
};
use crate::command::{Command, CommandView};
use crate::error::KVStoreError;
use crate::index::{
    lemma_ptr_len_le_total, lemma_sum_lens_nonneg, lemma_sum_lens_take_snoc, lemma_view_entries,
    sum_lens, Index, RecordPointer,
};

verus! {

/// When the stale-byte counter crosses this, the next write compacts.
pub const COMPACTION_THRESHOLD: usize = 1024 * 1024;

/// One numbered append-only log file: its generation and its full text.
#[derive(Debug, Clone)]
pub struct LogFile {
    /// The file's generation number.
    pub gen: u64,
    /// The file's whole text: a run of encoded command records.
    pub data: Vec<char>,
}

/// The record sequence a log file's text denotes; meaningful only when the
/// text decodes.
pub open spec fn records_of(data: Seq<char>) -> Seq<CommandView> {
    match parse_log(data) {
        Some(cs) => cs,
        None => Seq::empty(),
    }
}

/// Every record of every file, in generation order and offset order.
pub open spec fn history_of(files: Seq<LogFile>) -> Seq<CommandView>
    decreases files.len(),
{
    if files.len() == 0 {
        Seq::empty()
    } else {
        history_of(files.drop_last()) + records_of(files.last().data@)
    }
}

/// The sum of the files' sizes.
pub open spec fn total_len_of(files: Seq<LogFile>) -> int
    decreases files.len(),
{
    if files.len() == 0 {
        0
    } else {
        total_len_of(files.drop_last()) + files.last().data@.len()
    }
}

/// The last-write-wins fold of a record sequence: the mapping left after
/// applying every record in order.
pub open spec fn replay(cs: Seq<CommandView>) -> Map<Seq<char>, Seq<char>>
    decreases cs.len(),
{
    if cs.len() == 0 {
        Map::empty()
    } else {
        let m = replay(cs.drop_last());
        match cs.last() {
            CommandView::SET(k, v) => m.insert(k, v),
            CommandView::RM(k) => m.remove(k),
        }
    }
}

/// The log-structured store: its log files (the last one active), its
/// index, and the count of characters no longer reachable through the
/// index.
#[derive(Debug)]
pub struct KvStore {
    files: Vec<LogFile>,
    index: Index,
    stale: usize,
}

impl KvStore {
    /// The log files, oldest first.
    pub closed spec fn logs(self) -> Seq<LogFile> {
        self.files@
    }

    /// Every record ever appended and not yet compacted away, in order.
    pub closed spec fn history(self) -> Seq<CommandView> {
        history_of(self.files@)
    }

    /// The observable mapping: the last-write-wins fold of the history.
    pub closed spec fn state(self) -> Map<Seq<char>, Seq<char>> {
        replay(self.history())
    }

    /// The stale-byte counter.
    pub closed spec fn stale_bytes(self) -> int {
        self.stale as int
    }

    /// The sum of the log files' sizes.
    pub closed spec fn total_log_len(self) -> int {
        total_len_of(self.files@)
    }

    /// The characters reachable through the index: the live records'
    /// total length.
    pub closed spec fn live_bytes(self) -> int {
        self.index.total_ptr_len()
    }

    /// The active writer's generation.
    pub closed spec fn active_gen(self) -> u64 {
        self.files@.last().gen
    }

    /// The index entry for `k` names a live `SET` record: a well-placed
    /// record in some file whose text encodes `SET(k, state[k])`.
    pub closed spec fn pointer_ok(self, k: Seq<char>) -> bool {
        let p = self.index@[k];
        exists|i: int|
            0 <= i < self.files@.len() && #[trigger] self.files@[i].gen == p.gen && p.offset
                + p.len <= self.files@[i].data@.len() && self.files@[i].data@.subrange(
                p.offset as int,
                p.offset + p.len,
            ) == encode_cmd(CommandView::SET(k, self.state()[k]))
    }

    /// The store's well-formedness: what `open` establishes and every
    /// operation preserves.
    pub closed spec fn wf(self) -> bool {
        &&& self.files@.len() >= 1
        &&& forall|i: int, j: int|
            #![trigger self.files@[i].gen, self.files@[j].gen]
            0 <= i < j < self.files@.len() ==> self.files@[i].gen < self.files@[j].gen
        &&& forall|i: int|
            0 <= i < self.files@.len() ==> (#[trigger] parse_log(self.files@[i].data@)) is Some
        &&& self.index.inv()
        &&& forall|k: Seq<char>|
            #[trigger] self.index@.contains_key(k) ==> self.state().contains_key(k)
        &&& forall|k: Seq<char>|
            #[trigger] self.state().contains_key(k) ==> self.index@.contains_key(k)
        &&& forall|k: Seq<char>| self.index@.contains_key(k) ==> #[trigger] self.pointer_ok(k)
        &&& self.stale as int + self.index.total_ptr_len() <= self.total_log_len()
        &&& self.files@.last().gen <= u64::MAX - 2
    }

    /// The log files, for persisting them.
    pub fn log_files(&self) -> (r: &Vec<LogFile>)
        ensures
            r@ == self.logs(),
    {
        &self.files
    }

    /// The stale-byte counter's current value.
    pub fn stale_byte_count(&self) -> (r: usize)
        ensures
            r as int == self.stale_bytes(),
    {
        self.stale
    }
}

/// A count capped at the largest representable value.
pub open spec fn cap_at_usize(v: int) -> int {
    if v <= usize::MAX as int {
        v
    } else {
        usize::MAX as int
    }
}

/// What the stale-byte counter reads right after a `set` of `k`, before
/// any compaction: when `k` was present, the superseded record's length
/// is added.
pub open spec fn stale_after_set(s: KvStore, k: Seq<char>) -> int {
    if s.state().contains_key(k) {
        cap_at_usize(s.stale_bytes() + encode_cmd(CommandView::SET(k, s.state()[k])).len())
    } else {
        s.stale_bytes()
    }
}

/// What the stale-byte counter reads right after a `remove` of a present
/// key `k`, before any compaction: the superseded `SET` record's length
/// and the `RM` record's own length are added.
pub open spec fn stale_after_remove(s: KvStore, k: Seq<char>) -> int {
    cap_at_usize(
        cap_at_usize(s.stale_bytes() + encode_cmd(CommandView::SET(k, s.state()[k])).len())
            + encode_cmd(CommandView::RM(k)).len(),
    )
}

/// Adds two counts, stopping at the largest representable value.
fn sat_add(a: usize, b: usize) -> (r: usize)
    ensures
        r <= a + b,
        r as int == cap_at_usize(a + b),
{
    if a <= usize::MAX - b {
        a + b
    } else {
        usize::MAX
    }
}

/// Appends `src`'s characters to `dst`.
fn append_chars(dst: &mut Vec<char>, src: &Vec<char>)
    ensures
        final(dst)@ == old(dst)@ + src@,
{
    let ghost base = dst@;
    let mut i: usize = 0;
    while i < src.len()
        invariant
            i <= src.len(),
            dst@ == base + src@.take(i as int),
        decreases src.len() - i,
    {
        dst.push(src[i]);
        proof {
            assert(src@.take(i as int).push(src@[i as int]) =~= src@.take(i + 1));
            assert(dst@ =~= base + src@.take(i + 1));
        }
        i += 1;
    }
    proof {
        assert(src@.take(src.len() as int) =~= src@);
    }
}

/// Finds the position of the file with generation `gen`.
fn find_file(files: &Vec<LogFile>, gen: u64) -> (r: usize)
    requires
        exists|i: int| 0 <= i < files@.len() && #[trigger] files@[i].gen == gen,
    ensures
        r < files@.len(),
        files@[r as int].gen == gen,
{
    let mut fi: usize = 0;
    while fi < files.len()
        invariant
            fi <= files@.len(),
            exists|i: int| 0 <= i < files@.len() && #[trigger] files@[i].gen == gen,
            forall|m: int| 0 <= m < fi ==> files@[m].gen != gen,
        decreases files@.len() - fi,
    {
        if files[fi].gen == gen {
            return fi;
        }
        fi += 1;
    }
    proof {
        let i = choose|i: int| 0 <= i < files@.len() && #[trigger] files@[i].gen == gen;
        assert(files@[i].gen != gen);
        assert(false);
    }
    0
}

/// A file's records after one more record's text is appended.
proof fn lemma_records_append(data: Seq<char>, c: CommandView)
    requires
        parse_log(data) is Some,
    ensures
        parse_log(data + encode_cmd(c)) == Some(records_of(data).push(c)),
        records_of(data + encode_cmd(c)) == records_of(data).push(c),
{
    lemma_parse_log_sound(data);
    let cs = records_of(data);
    assert(data == encode_log(cs));
    lemma_encode_log_snoc(cs, c);
    lemma_parse_log_complete(cs.push(c));
}

/// One more file's records extend the history.
proof fn lemma_history_snoc(files: Seq<LogFile>, f: LogFile)
    ensures
        history_of(files.push(f)) == history_of(files) + records_of(f.data@),
        total_len_of(files.push(f)) == total_len_of(files) + f.data@.len(),
{
    assert(files.push(f).drop_last() =~= files);
    assert(files.push(f).last() == f);
}

impl KvStore {
    /// Sets `key` to `value`: appends a `SET` record to the active log
    /// file, points the index at it, and counts any superseded record's
    /// length as stale; crossing the stale threshold triggers compaction.
    pub fn set(&mut self, key: String, value: String) -> (r: Result<(), KVStoreError>)
        requires
            old(self).wf(),
        ensures
            final(self).wf(),
            r is Ok,
            final(self).state() == old(self).state().insert(key@, value@),
            stale_after_set(*old(self), key@) <= COMPACTION_THRESHOLD as int
                ==> final(self).stale_bytes() == stale_after_set(*old(self), key@),
            stale_after_set(*old(self), key@) > COMPACTION_THRESHOLD as int && old(
                self,
            ).active_gen() <= u64::MAX - 4 ==> final(self).stale_bytes() == 0
                && final(self).total_log_len() == final(self).live_bytes(),
            stale_after_set(*old(self), key@) > COMPACTION_THRESHOLD as int && old(
                self,
            ).active_gen() > u64::MAX - 4 ==> final(self).stale_bytes() == stale_after_set(
                *old(self),
                key@,
            ),
    {
        let cmd = Command::SET(key.clone(), value);
        let rec = encode_command(&cmd);
        let ghost cv = cmd@;
        let mut active = self.files.pop().unwrap();
        let gen = active.gen;
        let offset = active.data.len();
        append_chars(&mut active.data, &rec);
        self.files.push(active);
        let ptr = RecordPointer { gen, offset, len: rec.len() };
        let prev = self.index.insert(key, ptr);
        if let Some(p) = prev {
            self.stale = sat_add(self.stale, p.len);
        }
        proof {
            lemma_set_shape(*old(self), *self, cv, ptr, prev);
            match prev {
                Some(p) => {
                    lemma_ptr_len_le_total(old(self).index, key@);
                    lemma_live_record_len(*old(self), key@);
                    assert(self.stale <= old(self).stale + p.len);
                    assert(self.index.total_ptr_len() == old(self).index.total_ptr_len() - p.len
                        + ptr.len);
                },
                None => {
                    assert(self.index.total_ptr_len() == old(self).index.total_ptr_len()
                        + ptr.len);
                },
            }
            assert(self.stale as int == stale_after_set(*old(self), key@));
            assert(self.total_log_len() == old(self).total_log_len() + ptr.len);
            assert(self.stale as int + self.index.total_ptr_len() <= self.total_log_len());
            assert(self.wf());
            assert(self.active_gen() == old(self).active_gen());
        }
        if self.stale > COMPACTION_THRESHOLD {
            let _ = self.compact();
        }
        Ok(())
    }
}

/// After a `SET` append plus index insert, the store is well-formed again
/// and its state is the old state with the key set, provided the stale
/// counter is kept small enough.
proof fn lemma_set_shape(
    pre: KvStore,
    post: KvStore,
    cv: CommandView,
    ptr: RecordPointer,
    prev: Option<RecordPointer>,
)
    requires
        pre.wf(),
        cv matches CommandView::SET(kk, vv) && post.files@.len() == pre.files@.len()
            && post.files@ =~= pre.files@.drop_last().push(post.files@.last())
            && post.files@.last().gen == pre.files@.last().gen && post.files@.last().data@
            == pre.files@.last().data@ + encode_cmd(cv) && ptr.gen == pre.files@.last().gen
            && ptr.offset == pre.files@.last().data@.len() && ptr.len == encode_cmd(cv).len()
            && post.index.inv() && post.index@ == pre.index@.insert(kk, ptr) && (prev matches Some(
            p,
        ) ==> pre.index@.contains_key(kk) && pre.index@[kk] == p && post.index.total_ptr_len()
            == pre.index.total_ptr_len() - p.len + ptr.len) && (prev is None
            ==> !pre.index@.contains_key(kk) && post.index.total_ptr_len()
            == pre.index.total_ptr_len() + ptr.len),
    ensures
        cv matches CommandView::SET(kk, vv) ==> {
            &&& post.history() == pre.history().push(cv)
            &&& post.state() == pre.state().insert(kk, vv)
            &&& post.total_log_len() == pre.total_log_len() + encode_cmd(cv).len()
            &&& post.files@.len() >= 1
            &&& (forall|i: int, j: int|
                #![trigger post.files@[i].gen, post.files@[j].gen]
                0 <= i < j < post.files@.len() ==> post.files@[i].gen < post.files@[j].gen)
            &&& (forall|i: int|
                0 <= i < post.files@.len() ==> (#[trigger] parse_log(
                    post.files@[i].data@,
                )) is Some)
            &&& (forall|k: Seq<char>|
                #[trigger] post.index@.contains_key(k) ==> post.state().contains_key(k))
            &&& (forall|k: Seq<char>|
                #[trigger] post.state().contains_key(k) ==> post.index@.contains_key(k))
            &&& (forall|k: Seq<char>|
                post.index@.contains_key(k) ==> #[trigger] post.pointer_ok(k))
        },
{
    let kk = cv->SET_0;
    let vv = cv->SET_1;
    let oldfiles = pre.files@;
    let newfiles = post.files@;
    let n = oldfiles.len() as int;
    let act = newfiles.last();
    assert(oldfiles[n - 1].gen == oldfiles.last().gen);
    assert(parse_log(oldfiles[n - 1].data@) is Some);
    lemma_records_append(oldfiles.last().data@, cv);
    assert(oldfiles =~= oldfiles.drop_last().push(oldfiles.last()));
    lemma_history_snoc(oldfiles.drop_last(), oldfiles.last());
    lemma_history_snoc(oldfiles.drop_last(), act);
    assert(history_of(oldfiles) == history_of(oldfiles.drop_last()) + records_of(
        oldfiles.last().data@,
    ));
    assert(records_of(act.data@) == records_of(oldfiles.last().data@).push(cv));
    assert(history_of(newfiles) == history_of(oldfiles.drop_last()) + records_of(act.data@));
    assert(history_of(newfiles) =~= history_of(oldfiles).push(cv));
    assert(post.history() == pre.history().push(cv));
    // state
    assert(pre.history().push(cv).drop_last() =~= pre.history());
    assert(pre.history().push(cv).last() == cv);
    assert(post.state() == pre.state().insert(kk, vv));
    // sizes
    assert(total_len_of(oldfiles) == total_len_of(oldfiles.drop_last())
        + oldfiles.last().data@.len());
    assert(total_len_of(newfiles) == total_len_of(oldfiles.drop_last()) + act.data@.len());
    assert(post.total_log_len() == pre.total_log_len() + encode_cmd(cv).len());
    // generations
    assert forall|i: int, j: int|
        #![trigger post.files@[i].gen, post.files@[j].gen]
        0 <= i < j < newfiles.len() implies newfiles[i].gen < newfiles[j].gen by {
        if j < n - 1 {
            assert(newfiles[i] == oldfiles[i]);
            assert(newfiles[j] == oldfiles[j]);
        } else {
            assert(newfiles[j].gen == oldfiles[j].gen);
            assert(newfiles[i] == oldfiles[i]);
        }
        assert(oldfiles[i].gen < oldfiles[j].gen);
    }
    // every file still decodes
    assert forall|i: int| 0 <= i < newfiles.len() implies (#[trigger] parse_log(
        newfiles[i].data@,
    )) is Some by {
        if i < n - 1 {
            assert(newfiles[i] == oldfiles[i]);
            assert(parse_log(oldfiles[i].data@) is Some);
        } else {
            assert(parse_log(act.data@) is Some);
        }
    }
    // the index mirrors the state
    assert forall|k: Seq<char>| #[trigger] post.index@.contains_key(k) implies post.state(
    ).contains_key(k) by {
        if k != kk {
            assert(pre.index@.contains_key(k));
            assert(pre.state().contains_key(k));
        }
    }
    assert forall|k: Seq<char>| #[trigger] post.state().contains_key(k) implies post.index@.contains_key(
        k,
    ) by {
        if k != kk {
            assert(pre.state().contains_key(k));
            assert(pre.index@.contains_key(k));
        }
    }
    // every index entry points at a live record
    assert forall|k: Seq<char>| post.index@.contains_key(k) implies #[trigger] post.pointer_ok(
        k,
    ) by {
        if k == kk {
            assert(newfiles[n - 1].gen == ptr.gen);
            assert(ptr.offset + ptr.len <= act.data@.len());
            assert(act.data@.subrange(ptr.offset as int, ptr.offset + ptr.len) =~= encode_cmd(
                cv,
            ));
            assert(post.index@[k] == ptr);
            assert(post.state()[k] == vv);
        } else {
            assert(pre.index@.contains_key(k));
            assert(pre.pointer_ok(k));
            let p = pre.index@[k];
            let i = choose|i: int|
                0 <= i < pre.files@.len() && #[trigger] pre.files@[i].gen == p.gen && p.offset
                    + p.len <= pre.files@[i].data@.len() && pre.files@[i].data@.subrange(
                    p.offset as int,
                    p.offset + p.len,
                ) == encode_cmd(CommandView::SET(k, pre.state()[k]));
            assert(post.index@[k] == p);
            assert(post.state()[k] == pre.state()[k]);
            if i < n - 1 {
                assert(newfiles[i] == oldfiles[i]);
            } else {
                assert(newfiles[i].gen == p.gen);
                assert(p.offset + p.len <= oldfiles.last().data@.len());
                assert(act.data@.subrange(p.offset as int, p.offset + p.len)
                    =~= oldfiles.last().data@.subrange(p.offset as int, p.offset + p.len));
            }
            assert(newfiles[i].data@.subrange(p.offset as int, p.offset + p.len) == encode_cmd(
                CommandView::SET(k, post.state()[k]),
            ));
        }
    }
}

impl KvStore {
    /// The value for `key`: `None` if the key is absent, else the value of
    /// the `SET` record the index points at.
    pub fn get(&self, key: String) -> (r: Result<Option<String>, KVStoreError>)
        requires
            self.wf(),
        ensures
            r is Ok,
            r matches Ok(ov) ==> ((ov is Some) == self.state().contains_key(key@)) && (
            ov matches Some(v) ==> v@ == self.state()[key@]),
    {
        match self.index.get(&key) {
            None => {
                proof {
                    if self.state().contains_key(key@) {
                        assert(self.index@.contains_key(key@));
                    }
                }
                Ok(None)
            },
            Some(p) => {
                proof {
                    assert(self.pointer_ok(key@));
                }
                let fi = find_file(&self.files, p.gen);
                proof {
                    let i0 = choose|i: int|
                        0 <= i < self.files@.len() && #[trigger] self.files@[i].gen == p.gen
                            && p.offset + p.len <= self.files@[i].data@.len()
                            && self.files@[i].data@.subrange(
                            p.offset as int,
                            p.offset + p.len,
                        ) == encode_cmd(CommandView::SET(key@, self.state()[key@]));
                    if fi != i0 {
                        assert(self.files@[fi as int].gen == self.files@[i0].gen);
                        assert(false);
                    }
                    let data = self.files@[fi as int].data@;
                    assert(data.skip(p.offset as int) =~= data.subrange(
                        p.offset as int,
                        p.offset + p.len,
                    ) + data.skip(p.offset + p.len));
                    lemma_parse_cmd_complete(
                        CommandView::SET(key@, self.state()[key@]),
                        data.skip(p.offset + p.len),
                    );
                }
                match decode_command(&self.files[fi].data, p.offset) {
                    Ok(dec) => {
                        let (cmd, _consumed) = dec;
                        match cmd {
                            Command::SET(_k2, v) => Ok(Some(v)),
                            Command::RM(_k2) => {
                                proof {
                                    assert(false);
                                }
                                Err(KVStoreError::UnknownCommandType)
                            },
                        }
                    },
                    Err(e) => {
                        proof {
                            assert(false);
                        }
                        Err(e)
                    },
                }
            },
        }
    }

    /// Removes `key`: appends a `RM` record, drops the key from the index,
    /// and counts both the superseded `SET` record and the `RM` record
    /// itself as stale; crossing the stale threshold triggers compaction.
    /// `KeyNotFound`, with the store unchanged, if the key is absent.
    pub fn remove(&mut self, key: String) -> (r: Result<(), KVStoreError>)
        requires
            old(self).wf(),
        ensures
            final(self).wf(),
            old(self).state().contains_key(key@) ==> (r is Ok) && final(self).state() == old(
                self,
            ).state().remove(key@),
            !old(self).state().contains_key(key@) ==> (r matches Err(e) && e is KeyNotFound)
                && *final(self) == *old(self),
            old(self).state().contains_key(key@) && stale_after_remove(*old(self), key@)
                <= COMPACTION_THRESHOLD as int ==> final(self).stale_bytes()
                == stale_after_remove(*old(self), key@),
            old(self).state().contains_key(key@) && stale_after_remove(*old(self), key@)
                > COMPACTION_THRESHOLD as int && old(self).active_gen() <= u64::MAX - 4
                ==> final(self).stale_bytes() == 0
                && final(self).total_log_len() == final(self).live_bytes(),
            old(self).state().contains_key(key@) && stale_after_remove(*old(self), key@)
                > COMPACTION_THRESHOLD as int && old(self).active_gen() > u64::MAX - 4
                ==> final(self).stale_bytes() == stale_after_remove(*old(self), key@),
    {
        match self.index.get(&key) {
            None => {
                proof {
                    if old(self).state().contains_key(key@) {
                        assert(old(self).index@.contains_key(key@));
                    }
                }
                Err(KVStoreError::KeyNotFound)
            },
            Some(_) => {
                let cmd = Command::RM(key.clone());
                let rec = encode_command(&cmd);
                let ghost cv = cmd@;
                let mut active = self.files.pop().unwrap();
                append_chars(&mut active.data, &rec);
                self.files.push(active);
                let prev = self.index.remove(&key);
                match prev {
                    Some(p) => {
                        self.stale = sat_add(self.stale, p.len);
                        self.stale = sat_add(self.stale, rec.len());
                    },
                    None => {
                        proof {
                            assert(false);
                        }
                    },
                }
                proof {
                    lemma_remove_shape(*old(self), *self, cv, prev);
                    let p = prev->Some_0;
                    lemma_ptr_len_le_total(old(self).index, key@);
                    lemma_live_record_len(*old(self), key@);
                    assert(self.stale as int == stale_after_remove(*old(self), key@));
                    assert(self.stale <= old(self).stale + p.len + rec@.len());
                    assert(self.index.total_ptr_len() == old(self).index.total_ptr_len()
                        - p.len);
                    assert(self.total_log_len() == old(self).total_log_len() + rec@.len());
                    assert(self.stale as int + self.index.total_ptr_len()
                        <= self.total_log_len());
                    assert(self.wf());
                    assert(self.active_gen() == old(self).active_gen());
                }
                if self.stale > COMPACTION_THRESHOLD {
                    let _ = self.compact();
                }
                Ok(())
            },
        }
    }
}

/// After a `RM` append plus index removal, the store is well-formed again
/// and its state is the old state without the key.
proof fn lemma_remove_shape(
    pre: KvStore,
    post: KvStore,
    cv: CommandView,
    prev: Option<RecordPointer>,
)
    requires
        pre.wf(),
        cv matches CommandView::RM(kk) && post.files@.len() == pre.files@.len() && post.files@
            =~= pre.files@.drop_last().push(post.files@.last()) && post.files@.last().gen
            == pre.files@.last().gen && post.files@.last().data@ == pre.files@.last().data@
            + encode_cmd(cv) && post.index.inv() && post.index@ == pre.index@.remove(kk) && (
        prev matches Some(p) ==> pre.index@.contains_key(kk) && pre.index@[kk] == p
            && post.index.total_ptr_len() == pre.index.total_ptr_len() - p.len),
    ensures
        cv matches CommandView::RM(kk) ==> {
            &&& post.history() == pre.history().push(cv)
            &&& post.state() == pre.state().remove(kk)
            &&& post.total_log_len() == pre.total_log_len() + encode_cmd(cv).len()
            &&& post.files@.len() >= 1
            &&& (forall|i: int, j: int|
                #![trigger post.files@[i].gen, post.files@[j].gen]
                0 <= i < j < post.files@.len() ==> post.files@[i].gen < post.files@[j].gen)
            &&& (forall|i: int|
                0 <= i < post.files@.len() ==> (#[trigger] parse_log(
                    post.files@[i].data@,
                )) is Some)
            &&& (forall|k: Seq<char>|
                #[trigger] post.index@.contains_key(k) ==> post.state().contains_key(k))
            &&& (forall|k: Seq<char>|
                #[trigger] post.state().contains_key(k) ==> post.index@.contains_key(k))
            &&& (forall|k: Seq<char>|
                post.index@.contains_key(k) ==> #[trigger] post.pointer_ok(k))
        },
{
    let kk = cv->RM_0;
    let oldfiles = pre.files@;
    let newfiles = post.files@;
    let n = oldfiles.len() as int;
    let act = newfiles.last();
    assert(oldfiles[n - 1].gen == oldfiles.last().gen);
    assert(parse_log(oldfiles[n - 1].data@) is Some);
    lemma_records_append(oldfiles.last().data@, cv);
    assert(oldfiles =~= oldfiles.drop_last().push(oldfiles.last()));
    lemma_history_snoc(oldfiles.drop_last(), oldfiles.last());
    lemma_history_snoc(oldfiles.drop_last(), act);
    assert(records_of(act.data@) == records_of(oldfiles.last().data@).push(cv));
    assert(history_of(newfiles) == history_of(oldfiles.drop_last()) + records_of(act.data@));
    assert(history_of(newfiles) =~= history_of(oldfiles).push(cv));
    assert(post.history() == pre.history().push(cv));
    assert(pre.history().push(cv).drop_last() =~= pre.history());
    assert(pre.history().push(cv).last() == cv);
    assert(post.state() == pre.state().remove(kk));
    assert(total_len_of(oldfiles) == total_len_of(oldfiles.drop_last())
        + oldfiles.last().data@.len());
    assert(total_len_of(newfiles) == total_len_of(oldfiles.drop_last()) + act.data@.len());
    assert(post.total_log_len() == pre.total_log_len() + encode_cmd(cv).len());
    assert forall|i: int, j: int|
        #![trigger post.files@[i].gen, post.files@[j].gen]
        0 <= i < j < newfiles.len() implies newfiles[i].gen < newfiles[j].gen by {
        if j < n - 1 {
            assert(newfiles[i] == oldfiles[i]);
            assert(newfiles[j] == oldfiles[j]);
        } else {
            assert(newfiles[j].gen == oldfiles[j].gen);
            assert(newfiles[i] == oldfiles[i]);
        }
        assert(oldfiles[i].gen < oldfiles[j].gen);
    }
    assert forall|i: int| 0 <= i < newfiles.len() implies (#[trigger] parse_log(
        newfiles[i].data@,
    )) is Some by {
        if i < n - 1 {
            assert(newfiles[i] == oldfiles[i]);
            assert(parse_log(oldfiles[i].data@) is Some);
        } else {
            assert(parse_log(act.data@) is Some);
        }
    }
    assert forall|k: Seq<char>| #[trigger] post.index@.contains_key(k) implies post.state(
    ).contains_key(k) by {
        assert(k != kk);
        assert(pre.index@.contains_key(k));
        assert(pre.state().contains_key(k));
    }
    assert forall|k: Seq<char>| #[trigger] post.state().contains_key(k) implies post.index@.contains_key(
        k,
    ) by {
        assert(k != kk);
        assert(pre.state().contains_key(k));
        assert(pre.index@.contains_key(k));
    }
    assert forall|k: Seq<char>| post.index@.contains_key(k) implies #[trigger] post.pointer_ok(
        k,
    ) by {
        assert(k != kk);
        assert(pre.index@.contains_key(k));
        assert(pre.pointer_ok(k));
        let p = pre.index@[k];
        let i = choose|i: int|
            0 <= i < pre.files@.len() && #[trigger] pre.files@[i].gen == p.gen && p.offset
                + p.len <= pre.files@[i].data@.len() && pre.files@[i].data@.subrange(
                p.offset as int,
                p.offset + p.len,
            ) == encode_cmd(CommandView::SET(k, pre.state()[k]));
        assert(post.index@[k] == p);
        assert(post.state()[k] == pre.state()[k]);
        if i < n - 1 {
            assert(newfiles[i] == oldfiles[i]);
        } else {
            assert(newfiles[i].gen == p.gen);
            assert(p.offset + p.len <= oldfiles.last().data@.len());
            assert(act.data@.subrange(p.offset as int, p.offset + p.len)
                =~= oldfiles.last().data@.subrange(p.offset as int, p.offset + p.len));
        }
        assert(newfiles[i].data@.subrange(p.offset as int, p.offset + p.len) == encode_cmd(
            CommandView::SET(k, post.state()[k]),
        ));
    }
}

impl KvStore {
    /// Rewrites every live record into a fresh generation, drops all older
    /// files, resets the stale-byte counter, and opens a new empty active
    /// writer: afterwards exactly two files remain, the compacted one and
    /// an empty active one, together as large as the live records alone.
    /// The observable mapping is unchanged. At the very end of the
    /// generation space, where no two fresh generations are left, it
    /// leaves the store as it is.
    pub fn compact(&mut self) -> (r: Result<(), KVStoreError>)
        requires
            old(self).wf(),
        ensures
            final(self).wf(),
            r is Ok,
            final(self).state() == old(self).state(),
            old(self).active_gen() > u64::MAX - 4 ==> *final(self) == *old(self),
            old(self).active_gen() <= u64::MAX - 4 ==> final(self).stale_bytes() == 0
                && final(self).logs().len() == 2
                && final(self).logs()[0].gen == old(self).active_gen() + 1
                && final(self).logs()[1].gen == old(self).active_gen() + 2
                && final(self).logs()[1].data@.len() == 0
                && final(self).total_log_len() == old(self).live_bytes()
                && final(self).total_log_len() == final(self).live_bytes()
                && final(self).total_log_len() + old(self).stale_bytes() <= old(
                self,
            ).total_log_len(),
    {
        let last_idx = self.files.len() - 1;
        let last_gen = self.files[last_idx].gen;
        proof {
            assert(self.files@[last_idx as int] == self.files@.last());
        }
        if last_gen > u64::MAX - 4 {
            return Ok(());
        }
        let compact_gen = last_gen + 1;
        let mut new_data: Vec<char> = Vec::new();
        let mut new_index = Index::new();
        let ghost old_state = self.state();
        let ghost mut new_records: Seq<CommandView> = Seq::empty();
        proof {
            lemma_view_entries(self.index);
        }
        let n = self.index.len();
        let mut j: usize = 0;
        proof {
            assert(self.index.ptr_seq().take(0) =~= Seq::<RecordPointer>::empty());
        }
        while j < n
            invariant
                j <= n,
                n == self.index.key_seq().len(),
                self.wf(),
                old_state == self.state(),
                new_index.inv(),
                new_data@ == encode_log(new_records),
                forall|k: Seq<char>|
                    #[trigger] new_index@.contains_key(k) ==> (exists|m: int|
                        0 <= m < j && self.index.key_seq()[m] == k),
                forall|m: int|
                    0 <= m < j ==> new_index@.contains_key(#[trigger] self.index.key_seq()[m]),
                forall|k: Seq<char>|
                    #[trigger] new_index@.contains_key(k) ==> new_index@[k].gen == compact_gen
                        && new_index@[k].offset + new_index@[k].len <= new_data@.len()
                        && new_data@.subrange(
                        new_index@[k].offset as int,
                        new_index@[k].offset + new_index@[k].len,
                    ) == encode_cmd(CommandView::SET(k, old_state[k]))
                        && old_state.contains_key(k),
                forall|k: Seq<char>|
                    #[trigger] replay(new_records).contains_key(k) ==> new_index@.contains_key(
                        k,
                    ),
                forall|k: Seq<char>|
                    #[trigger] new_index@.contains_key(k) ==> replay(
                        new_records,
                    ).contains_key(k),
                forall|k: Seq<char>|
                    #[trigger] replay(new_records).contains_key(k) ==> replay(new_records)[k]
                        == old_state[k],
                new_index.total_ptr_len() == new_data@.len(),
                new_data@.len() == sum_lens(self.index.ptr_seq().take(j as int)),
            decreases n - j,
        {
            let ghost kk = self.index.key_seq()[j as int];
            let p = self.index.ptr_at(j);
            proof {
                lemma_view_entries(self.index);
                assert(self.index@.contains_key(kk));
                assert(self.index@[kk] == p);
                assert(self.pointer_ok(kk));
            }
            let fi = find_file(&self.files, p.gen);
            proof {
                let i0 = choose|i: int|
                    0 <= i < self.files@.len() && #[trigger] self.files@[i].gen == p.gen
                        && p.offset + p.len <= self.files@[i].data@.len()
                        && self.files@[i].data@.subrange(
                        p.offset as int,
                        p.offset + p.len,
                    ) == encode_cmd(CommandView::SET(kk, self.state()[kk]));
                if fi != i0 {
                    assert(self.files@[fi as int].gen == self.files@[i0].gen);
                    assert(false);
                }
                let data = self.files@[fi as int].data@;
                assert(data.skip(p.offset as int) =~= data.subrange(
                    p.offset as int,
                    p.offset + p.len,
                ) + data.skip(p.offset + p.len));
                lemma_parse_cmd_complete(
                    CommandView::SET(kk, self.state()[kk]),
                    data.skip(p.offset + p.len),
                );
            }
            match decode_command(&self.files[fi].data, p.offset) {
                Ok(dc) => {
                    let (cmd, _consumed) = dc;
                    proof {
                        assert(cmd@ == CommandView::SET(kk, old_state[kk]));
                    }
                    let rec = encode_command(&cmd);
                    proof {
                        lemma_live_record_len(*self, kk);
                        assert(rec@.len() == p.len);
                        lemma_sum_lens_take_snoc(self.index.ptr_seq(), j as int);
                    }
                    let offset_new = new_data.len();
                    let ghost prev_data = new_data@;
                    let ghost prev_records = new_records;
                    append_chars(&mut new_data, &rec);
                    let nptr = RecordPointer {
                        gen: compact_gen,
                        offset: offset_new,
                        len: rec.len(),
                    };
                    match cmd {
                        Command::SET(k2, _v2) => {
                            let prev2 = new_index.insert(k2, nptr);
                            proof {
                                if prev2 is Some {
                                    let m = choose|m: int|
                                        0 <= m < j && self.index.key_seq()[m] == kk;
                                    assert(self.index.key_seq()[m] == self.index.key_seq()[
                                        j as int]);
                                    assert(false);
                                }
                                new_records = prev_records.push(
                                    CommandView::SET(kk, old_state[kk]),
                                );
                                lemma_encode_log_snoc(
                                    prev_records,
                                    CommandView::SET(kk, old_state[kk]),
                                );
                                assert(new_data@ == encode_log(new_records));
                                assert(new_records.drop_last() =~= prev_records);
                                assert(replay(new_records) == replay(prev_records).insert(
                                    kk,
                                    old_state[kk],
                                ));
                                assert forall|k: Seq<char>| #[trigger] new_index@.contains_key(
                                    k,
                                ) implies new_index@[k].gen == compact_gen && new_index@[k].offset
                                    + new_index@[k].len <= new_data@.len() && new_data@.subrange(
                                    new_index@[k].offset as int,
                                    new_index@[k].offset + new_index@[k].len,
                                ) == encode_cmd(CommandView::SET(k, old_state[k]))
                                    && old_state.contains_key(k) by {
                                    if k == kk {
                                        assert(new_index@[k] == nptr);
                                        assert(new_data@.subrange(
                                            offset_new as int,
                                            offset_new + rec@.len(),
                                        ) =~= rec@);
                                        assert(old_state.contains_key(kk));
                                    } else {
                                        let q = new_index@[k];
                                        assert(new_data@.subrange(
                                            q.offset as int,
                                            q.offset + q.len,
                                        ) =~= prev_data.subrange(
                                            q.offset as int,
                                            q.offset + q.len,
                                        ));
                                    }
                                }
                            }
                        },
                        Command::RM(_k2) => {
                            proof {
                                assert(false);
                            }
                        },
                    }
                },
                Err(e) => {
                    proof {
                        assert(false);
                    }
                    return Err(e);
                },
            }
            j += 1;
        }
        proof {
            lemma_view_entries(self.index);
            assert forall|k: Seq<char>| #[trigger] old_state.contains_key(
                k,
            ) implies replay(new_records).contains_key(k) && replay(new_records)[k]
                == old_state[k] by {
                assert(self.index@.contains_key(k));
                let m = choose|m: int|
                    0 <= m < self.index.key_seq().len() && self.index.key_seq()[m] == k;
                assert(new_index@.contains_key(self.index.key_seq()[m]));
            }
            assert forall|k: Seq<char>| #[trigger] replay(new_records).contains_key(
                k,
            ) implies old_state.contains_key(k) by {
                assert(new_index@.contains_key(k));
            }
            assert(replay(new_records) =~= old_state);
            assert(self.index.ptr_seq().take(n as int) =~= self.index.ptr_seq());
            assert(new_data@.len() == old(self).live_bytes());
        }
        let mut nf: Vec<LogFile> = Vec::new();
        nf.push(LogFile { gen: compact_gen, data: new_data });
        nf.push(LogFile { gen: compact_gen + 1, data: Vec::new() });
        let ghost final_index_view = new_index@;
        self.files = nf;
        self.index = new_index;
        self.stale = 0;
        proof {
            let f = self.files@;
            assert(f.len() == 2);
            lemma_parse_log_complete(new_records);
            assert(parse_log(f[0].data@) == Some(new_records));
            assert(f[1].data@.len() == 0);
            assert(parse_log(f[1].data@) == Some(Seq::<CommandView>::empty()));
            assert forall|i: int| 0 <= i < f.len() implies (#[trigger] parse_log(
                f[i].data@,
            )) is Some by {}
            assert(f.drop_last() =~= seq![f[0]]);
            assert(seq![f[0]].drop_last() =~= Seq::<LogFile>::empty());
            assert(history_of(seq![f[0]]) == history_of(Seq::<LogFile>::empty()) + records_of(
                f[0].data@,
            ));
            assert(history_of(f) == history_of(f.drop_last()) + records_of(f[1].data@));
            assert(history_of(f) =~= new_records);
            assert(self.state() == replay(new_records));
            assert(self.state() == old(self).state());
            assert forall|k: Seq<char>| self.index@.contains_key(k) implies #[trigger] self.pointer_ok(
                k,
            ) by {
                let q = self.index@[k];
                assert(f[0].gen == q.gen);
                assert(f[0].data@.subrange(q.offset as int, q.offset + q.len) == encode_cmd(
                    CommandView::SET(k, self.state()[k]),
                ));
            }
            assert(total_len_of(f) == total_len_of(f.drop_last()) + f[1].data@.len());
            assert(total_len_of(seq![f[0]]) == total_len_of(Seq::<LogFile>::empty())
                + f[0].data@.len());
            assert(self.total_log_len() == old(self).live_bytes());
            assert(self.live_bytes() == self.total_log_len());
            assert(self.total_log_len() + old(self).stale_bytes() <= old(self).total_log_len());
            assert(self.stale as int + self.index.total_ptr_len() <= self.total_log_len());
            assert(self.wf());
        }
        Ok(())
    }
}


/// A present key's pointer is exactly as long as the encoding of the
/// `SET` record it names.
proof fn lemma_live_record_len(s: KvStore, k: Seq<char>)
    requires
        s.wf(),
        s.index@.contains_key(k),
    ensures
        s.index@[k].len == encode_cmd(CommandView::SET(k, s.state()[k])).len(),
{
    assert(s.pointer_ok(k));
    let p = s.index@[k];
    let i = choose|i: int|
        0 <= i < s.files@.len() && #[trigger] s.files@[i].gen == p.gen && p.offset + p.len
            <= s.files@[i].data@.len() && s.files@[i].data@.subrange(
            p.offset as int,
            p.offset + p.len,
        ) == encode_cmd(CommandView::SET(k, s.state()[k]));
    assert(s.files@[i].data@.subrange(p.offset as int, p.offset + p.len).len() == p.len);
}

/// A record's text is never empty.
proof fn lemma_encode_cmd_nonempty(c: CommandView)
    ensures
        encode_cmd(c).len() >= 11,
{
    match c {
        CommandView::SET(k, v) => {},
        CommandView::RM(k) => {},
    }
}

/// During replay: the pointer for `k` names a record encoding
/// `SET(k, m[k])` inside one of the first `upto + 1` files, where only the
/// first `cap` characters of file `upto` count yet.
spec fn open_ptr_ok(
    files: Seq<LogFile>,
    upto: int,
    cap: int,
    p: RecordPointer,
    k: Seq<char>,
    m: Map<Seq<char>, Seq<char>>,
) -> bool {
    exists|i: int|
        0 <= i <= upto && #[trigger] files[i].gen == p.gen && p.offset + p.len <= (if i < upto {
            files[i].data@.len() as int
        } else {
            cap
        }) && files[i].data@.subrange(p.offset as int, p.offset + p.len) == encode_cmd(
            CommandView::SET(k, m[k]),
        )
}

impl KvStore {
    /// Opens a store from a directory's log files, handed over in
    /// ascending generation order: replays every record in order to
    /// rebuild the index and the stale-byte counter, then opens the next
    /// generation as the active writer. `Serde`, and no store, if some
    /// file's text is not a run of records: a corrupt or truncated
    /// trailing record is treated as corruption, never as end of log.
    pub fn open(files: Vec<LogFile>) -> (r: Result<KvStore, KVStoreError>)
        requires
            forall|i: int, j: int|
                #![trigger files@[i].gen, files@[j].gen]
                0 <= i < j < files@.len() ==> files@[i].gen < files@[j].gen,
            forall|i: int| 0 <= i < files@.len() ==> (#[trigger] files@[i].gen) <= u64::MAX - 3,
        ensures
            r matches Ok(s) ==> s.wf() && (forall|i: int|
                0 <= i < files@.len() ==> (#[trigger] parse_log(files@[i].data@)) is Some)
                && s.state() == replay(history_of(files@)),
            r matches Err(e) ==> (e is Serde) && (exists|i: int|
                0 <= i < files@.len() && (#[trigger] parse_log(files@[i].data@)) is None),
    {
        let mut index = Index::new();
        let mut stale: usize = 0;
        let ghost mut hist: Seq<CommandView> = Seq::empty();
        let nf = files.len();
        let mut fi: usize = 0;
        proof {
            assert(files@.take(0) =~= Seq::<LogFile>::empty());
        }
        while fi < nf
            invariant
                fi <= nf,
                nf == files@.len(),
                forall|i: int, j: int|
                    #![trigger files@[i].gen, files@[j].gen]
                    0 <= i < j < files@.len() ==> files@[i].gen < files@[j].gen,
                hist == history_of(files@.take(fi as int)),
                forall|i: int| 0 <= i < fi ==> (#[trigger] parse_log(files@[i].data@)) is Some,
                index.inv(),
                forall|k: Seq<char>|
                    #[trigger] index@.contains_key(k) ==> replay(hist).contains_key(k),
                forall|k: Seq<char>|
                    #[trigger] replay(hist).contains_key(k) ==> index@.contains_key(k),
                forall|k: Seq<char>|
                    #[trigger] index@.contains_key(k) ==> open_ptr_ok(
                        files@,
                        fi as int,
                        0,
                        index@[k],
                        k,
                        replay(hist),
                    ),
                stale as int + index.total_ptr_len() <= total_len_of(files@.take(fi as int)),
            decreases nf - fi,
        {
            let flen = files[fi].data.len();
            let fgen = files[fi].gen;
            let ghost fdata = files@[fi as int].data@;
            let mut pos: usize = 0;
            let ghost mut frecs: Seq<CommandView> = Seq::empty();
            proof {
                assert(fdata.skip(0) =~= fdata);
                match parse_log(fdata) {
                    Some(r2) => {
                        assert(Seq::<CommandView>::empty() + r2 =~= r2);
                    },
                    None => {},
                }
                assert(history_of(files@.take(fi as int)) + Seq::<CommandView>::empty()
                    =~= history_of(files@.take(fi as int)));
            }
            while pos < flen
                invariant
                    pos <= flen,
                    fi < nf,
                    nf == files@.len(),
                    flen == fdata.len(),
                    fdata == files@[fi as int].data@,
                    fgen == files@[fi as int].gen,
                    (parse_log(fdata) is Some) == (parse_log(fdata.skip(pos as int)) is Some),
                    parse_log(fdata.skip(pos as int)) matches Some(r2) ==> parse_log(fdata)
                        == Some(frecs + r2),
                    hist == history_of(files@.take(fi as int)) + frecs,
                    index.inv(),
                    forall|k: Seq<char>|
                        #[trigger] index@.contains_key(k) ==> replay(hist).contains_key(k),
                    forall|k: Seq<char>|
                        #[trigger] replay(hist).contains_key(k) ==> index@.contains_key(k),
                    forall|k: Seq<char>|
                        #[trigger] index@.contains_key(k) ==> open_ptr_ok(
                            files@,
                            fi as int,
                            pos as int,
                            index@[k],
                            k,
                            replay(hist),
                        ),
                    stale as int + index.total_ptr_len() <= total_len_of(
                        files@.take(fi as int),
                    ) + pos,
                decreases flen - pos,
            {
                match decode_command(&files[fi].data, pos) {
                    Err(e) => {
                        proof {
                            assert(parse_log(fdata.skip(pos as int)) is None);
                            assert(parse_log(files@[fi as int].data@) is None);
                        }
                        return Err(e);
                    },
                    Ok(dc) => {
                        let (cmd, cnt) = dc;
                        let ghost cv = cmd@;
                        let ghost prev_hist = hist;
                        let ghost prev_frecs = frecs;
                        let ghost prev_index_view = index@;
                        proof {
                            assert(fdata.skip(pos as int).skip(cnt as int) =~= fdata.skip(
                                pos + cnt,
                            ));
                            lemma_parse_cmd_sound(fdata.skip(pos as int));
                            assert(fdata.skip(pos as int).take(cnt as int) =~= fdata.subrange(
                                pos as int,
                                pos + cnt,
                            ));
                            hist = prev_hist.push(cv);
                            frecs = prev_frecs.push(cv);
                            assert(hist.drop_last() =~= prev_hist);
                            assert(hist == history_of(files@.take(fi as int)) + frecs) by {
                                assert(prev_hist.push(cv) =~= history_of(
                                    files@.take(fi as int),
                                ) + prev_frecs.push(cv));
                            }
                            match parse_log(fdata.skip(pos + cnt)) {
                                Some(r2) => {
                                    assert(parse_log(fdata.skip(pos as int)) == Some(
                                        seq![cv] + r2,
                                    ));
                                    assert(frecs + r2 =~= prev_frecs + (seq![cv] + r2));
                                },
                                None => {
                                    assert(parse_log(fdata.skip(pos as int)) is None);
                                },
                            }
                        }
                        match cmd {
                            Command::SET(k, _v) => {
                                let ptr = RecordPointer { gen: fgen, offset: pos, len: cnt };
                                let ghost kk = k@;
                                let prev = index.insert(k, ptr);
                                if let Some(pp) = prev {
                                    stale = sat_add(stale, pp.len);
                                }
                                proof {
                                    lemma_open_step_set(
                                        files@,
                                        fi as int,
                                        pos as int,
                                        cnt as int,
                                        cv,
                                        prev_hist,
                                        prev_index_view,
                                        index@,
                                        ptr,
                                    );
                                }
                            },
                            Command::RM(k) => {
                                let prev = index.remove(&k);
                                match prev {
                                    Some(pp) => {
                                        stale = sat_add(stale, pp.len);
                                        stale = sat_add(stale, cnt);
                                    },
                                    None => {
                                        stale = sat_add(stale, cnt);
                                    },
                                }
                                proof {
                                    lemma_open_step_rm(
                                        files@,
                                        fi as int,
                                        pos as int,
                                        cnt as int,
                                        cv,
                                        prev_hist,
                                        prev_index_view,
                                        index@,
                                    );
                                }
                            },
                        }
                        pos = pos + cnt;
                    },
                }
            }
            proof {
                assert(fdata.skip(flen as int).len() == 0);
                assert(parse_log(fdata.skip(flen as int)) == Some(Seq::<CommandView>::empty()));
                assert(parse_log(fdata) == Some(frecs + Seq::<CommandView>::empty()));
                assert(frecs + Seq::<CommandView>::empty() =~= frecs);
                assert(records_of(fdata) == frecs);
                assert(files@.take(fi + 1) =~= files@.take(fi as int).push(files@[fi as int]));
                lemma_history_snoc(files@.take(fi as int), files@[fi as int]);
                assert(hist == history_of(files@.take(fi + 1)));
                assert forall|k: Seq<char>| #[trigger] index@.contains_key(k) implies open_ptr_ok(
                    files@,
                    fi + 1,
                    0,
                    index@[k],
                    k,
                    replay(hist),
                ) by {
                    let p = index@[k];
                    let i = choose|i: int|
                        0 <= i <= fi && #[trigger] files@[i].gen == p.gen && p.offset + p.len
                            <= (if i < fi {
                            files@[i].data@.len() as int
                        } else {
                            flen as int
                        }) && files@[i].data@.subrange(p.offset as int, p.offset + p.len)
                            == encode_cmd(CommandView::SET(k, replay(hist)[k]));
                    assert(0 <= i <= fi + 1 && files@[i].gen == p.gen && p.offset + p.len <= (
                    if i < fi + 1 {
                        files@[i].data@.len() as int
                    } else {
                        0
                    }) && files@[i].data@.subrange(p.offset as int, p.offset + p.len)
                        == encode_cmd(CommandView::SET(k, replay(hist)[k])));
                }
            }
            fi += 1;
        }
        proof {
            assert(files@.take(nf as int) =~= files@);
        }
        let next_gen: u64 = if nf == 0 {
            1
        } else {
            files[nf - 1].gen + 1
        };
        let mut all = files;
        all.push(LogFile { gen: next_gen, data: Vec::new() });
        let store = KvStore { files: all, index, stale };
        proof {
            let f = store.files@;
            let act = f.last();
            assert(f =~= files@.push(act));
            assert(act.data@.len() == 0);
            assert(parse_log(act.data@) == Some(Seq::<CommandView>::empty()));
            lemma_history_snoc(files@, act);
            assert(history_of(f) == hist + records_of(act.data@));
            assert(hist + Seq::<CommandView>::empty() =~= hist);
            assert(store.history() == hist);
            assert(store.state() == replay(history_of(files@)));
            assert forall|i: int, j: int|
                #![trigger f[i].gen, f[j].gen]
                0 <= i < j < f.len() implies f[i].gen < f[j].gen by {
                if j == f.len() - 1 {
                    assert(f[i] == files@[i]);
                    if i < nf - 1 {
                        assert(files@[i].gen < files@[nf - 1].gen);
                    }
                    assert(f[i].gen < next_gen);
                } else {
                    assert(f[i] == files@[i]);
                    assert(f[j] == files@[j]);
                }
            }
            assert forall|i: int| 0 <= i < f.len() implies (#[trigger] parse_log(
                f[i].data@,
            )) is Some by {
                if i < f.len() - 1 {
                    assert(f[i] == files@[i]);
                    assert(parse_log(files@[i].data@) is Some);
                }
            }
            assert forall|k: Seq<char>| store.index@.contains_key(k) implies #[trigger] store.pointer_ok(
                k,
            ) by {
                assert(index@.contains_key(k));
                assert(open_ptr_ok(files@, nf as int, 0, index@[k], k, replay(hist)));
                let p = store.index@[k];
                assert(p == index@[k]);
                let i = choose|i: int|
                    0 <= i <= nf && #[trigger] files@[i].gen == p.gen && p.offset + p.len <= (
                    if i < nf {
                        files@[i].data@.len() as int
                    } else {
                        0
                    }) && files@[i].data@.subrange(p.offset as int, p.offset + p.len)
                        == encode_cmd(CommandView::SET(k, replay(hist)[k]));
                if i == nf {
                    lemma_encode_cmd_nonempty(CommandView::SET(k, replay(hist)[k]));
                    assert(files@[i].data@.subrange(p.offset as int, p.offset + p.len).len()
                        == 0);
                    assert(false);
                }
                assert(f[i] == files@[i]);
                assert(store.state()[k] == replay(hist)[k]);
            }
            lemma_history_snoc(files@, act);
            assert(total_len_of(f) == total_len_of(files@) + 0);
            assert(store.stale as int + store.index.total_ptr_len() <= store.total_log_len());
            assert(f.last().gen <= u64::MAX - 2);
            assert(store.wf());
        }
        Ok(store)
    }
}

/// One `SET` record applied during replay keeps the replay invariants.
proof fn lemma_open_step_set(
    files: Seq<LogFile>,
    fi: int,
    pos: int,
    cnt: int,
    cv: CommandView,
    prev_hist: Seq<CommandView>,
    prev_index: Map<Seq<char>, RecordPointer>,
    post_index: Map<Seq<char>, RecordPointer>,
    ptr: RecordPointer,
)
    requires
        0 <= fi < files.len(),
        0 <= pos,
        0 <= cnt,
        pos + cnt <= files[fi].data@.len(),
        cv matches CommandView::SET(kk, vv) && post_index == prev_index.insert(kk, ptr)
            && ptr.gen == files[fi].gen && ptr.offset == pos && ptr.len == cnt
            && files[fi].data@.subrange(pos, pos + cnt) == encode_cmd(cv) && (forall|
            k: Seq<char>,
        |
            #[trigger] prev_index.contains_key(k) ==> replay(prev_hist).contains_key(k)) && (
        forall|k: Seq<char>|
            #[trigger] replay(prev_hist).contains_key(k) ==> prev_index.contains_key(k)) && (
        forall|k: Seq<char>|
            #[trigger] prev_index.contains_key(k) ==> open_ptr_ok(
                files,
                fi,
                pos,
                prev_index[k],
                k,
                replay(prev_hist),
            )),
    ensures
        cv matches CommandView::SET(kk, vv) ==> {
            &&& (forall|k: Seq<char>|
                #[trigger] post_index.contains_key(k) ==> replay(
                    prev_hist.push(cv),
                ).contains_key(k))
            &&& (forall|k: Seq<char>|
                #[trigger] replay(prev_hist.push(cv)).contains_key(k)
                    ==> post_index.contains_key(k))
            &&& (forall|k: Seq<char>|
                #[trigger] post_index.contains_key(k) ==> open_ptr_ok(
                    files,
                    fi,
                    pos + cnt,
                    post_index[k],
                    k,
                    replay(prev_hist.push(cv)),
                ))
        },
{
    let kk = cv->SET_0;
    let vv = cv->SET_1;
    let m0 = replay(prev_hist);
    let m1 = replay(prev_hist.push(cv));
    assert(prev_hist.push(cv).drop_last() =~= prev_hist);
    assert(m1 == m0.insert(kk, vv));
    assert forall|k: Seq<char>| #[trigger] post_index.contains_key(k) implies open_ptr_ok(
        files,
        fi,
        pos + cnt,
        post_index[k],
        k,
        m1,
    ) by {
        if k == kk {
            assert(post_index[k] == ptr);
            assert(m1[k] == vv);
            assert(0 <= fi <= fi && files[fi].gen == ptr.gen && ptr.offset + ptr.len <= (
            if fi < fi {
                files[fi].data@.len() as int
            } else {
                pos + cnt
            }) && files[fi].data@.subrange(ptr.offset as int, ptr.offset + ptr.len)
                == encode_cmd(CommandView::SET(k, m1[k])));
        } else {
            assert(prev_index.contains_key(k));
            assert(open_ptr_ok(files, fi, pos, prev_index[k], k, m0));
            let p = prev_index[k];
            let i = choose|i: int|
                0 <= i <= fi && #[trigger] files[i].gen == p.gen && p.offset + p.len <= (if i
                    < fi {
                    files[i].data@.len() as int
                } else {
                    pos
                }) && files[i].data@.subrange(p.offset as int, p.offset + p.len) == encode_cmd(
                    CommandView::SET(k, m0[k]),
                );
            assert(m1[k] == m0[k]);
            assert(post_index[k] == p);
            assert(0 <= i <= fi && files[i].gen == p.gen && p.offset + p.len <= (if i < fi {
                files[i].data@.len() as int
            } else {
                pos + cnt
            }) && files[i].data@.subrange(p.offset as int, p.offset + p.len) == encode_cmd(
                CommandView::SET(k, m1[k]),
            ));
        }
    }
}

/// One `RM` record applied during replay keeps the replay invariants.
proof fn lemma_open_step_rm(
    files: Seq<LogFile>,
    fi: int,
    pos: int,
    cnt: int,
    cv: CommandView,
    prev_hist: Seq<CommandView>,
    prev_index: Map<Seq<char>, RecordPointer>,
    post_index: Map<Seq<char>, RecordPointer>,
)
    requires
        0 <= fi < files.len(),
        0 <= pos,
        0 <= cnt,
        cv matches CommandView::RM(kk) && post_index == prev_index.remove(kk) && (forall|
            k: Seq<char>,
        |
            #[trigger] prev_index.contains_key(k) ==> replay(prev_hist).contains_key(k)) && (
        forall|k: Seq<char>|
            #[trigger] replay(prev_hist).contains_key(k) ==> prev_index.contains_key(k)) && (
        forall|k: Seq<char>|
            #[trigger] prev_index.contains_key(k) ==> open_ptr_ok(
                files,
                fi,
                pos,
                prev_index[k],
                k,
                replay(prev_hist),
            )),
    ensures
        cv matches CommandView::RM(kk) ==> {
            &&& (forall|k: Seq<char>|
                #[trigger] post_index.contains_key(k) ==> replay(
                    prev_hist.push(cv),
                ).contains_key(k))
            &&& (forall|k: Seq<char>|
                #[trigger] replay(prev_hist.push(cv)).contains_key(k)
                    ==> post_index.contains_key(k))
            &&& (forall|k: Seq<char>|
                #[trigger] post_index.contains_key(k) ==> open_ptr_ok(
                    files,
                    fi,
                    pos + cnt,
                    post_index[k],
                    k,
                    replay(prev_hist.push(cv)),
                ))
        },
{
    let kk = cv->RM_0;
    let m0 = replay(prev_hist);
    let m1 = replay(prev_hist.push(cv));
    assert(prev_hist.push(cv).drop_last() =~= prev_hist);
    assert(m1 == m0.remove(kk));
    assert forall|k: Seq<char>| #[trigger] post_index.contains_key(k) implies open_ptr_ok(
        files,
        fi,
        pos + cnt,
        post_index[k],
        k,
        m1,
    ) by {
        assert(k != kk);
        assert(prev_index.contains_key(k));
        assert(open_ptr_ok(files, fi, pos, prev_index[k], k, m0));
        let p = prev_index[k];
        let i = choose|i: int|
            0 <= i <= fi && #[trigger] files[i].gen == p.gen && p.offset + p.len <= (if i < fi {
                files[i].data@.len() as int
            } else {
                pos
            }) && files[i].data@.subrange(p.offset as int, p.offset + p.len) == encode_cmd(
                CommandView::SET(k, m0[k]),
            );
        assert(m1[k] == m0[k]);
        assert(post_index[k] == p);
        assert(0 <= i <= fi && files[i].gen == p.gen && p.offset + p.len <= (if i < fi {
            files[i].data@.len() as int
        } else {
            pos + cnt
        }) && files[i].data@.subrange(p.offset as int, p.offset + p.len) == encode_cmd(
            CommandView::SET(k, m1[k]),
        ));
    }
}


/// The observable mapping is exactly the last-write-wins fold over the
/// store's record history.
pub proof fn lemma_state_is_replay(s: KvStore)
    requires
        s.wf(),
    ensures
        s.state() == replay(s.history()),
{
}

/// What remains in the log files reopens to the same mapping: they stand
/// in ascending generation order, each bounded by `u64::MAX - 2`, every
/// one decodes, and replaying them yields exactly the store's observable
/// state. `open` asks for generations at most `u64::MAX - 3`, one below
/// the bound here, because every reopen allocates the next generation;
/// one comparison on the last generation closes that gap.
pub proof fn lemma_reopen_preserves_state(s: KvStore)
    requires
        s.wf(),
    ensures
        forall|i: int, j: int|
            #![trigger s.logs()[i].gen, s.logs()[j].gen]
            0 <= i < j < s.logs().len() ==> s.logs()[i].gen < s.logs()[j].gen,
        forall|i: int| 0 <= i < s.logs().len() ==> (#[trigger] s.logs()[i].gen) <= u64::MAX - 2,
        forall|i: int|
            0 <= i < s.logs().len() ==> (#[trigger] parse_log(s.logs()[i].data@)) is Some,
        replay(history_of(s.logs())) == s.state(),
{
    let n = s.logs().len() as int;
    assert forall|i: int| 0 <= i < n implies (#[trigger] s.logs()[i].gen) <= u64::MAX - 2 by {
        if i < n - 1 {
            assert(s.logs()[i].gen < s.logs()[n - 1].gen);
        }
        assert(s.logs()[n - 1].gen == s.files@.last().gen);
    }
}

/// The stale-byte counter never exceeds the sum of the log files' sizes.
pub proof fn lemma_stale_bytes_bounded(s: KvStore)
    requires
        s.wf(),
    ensures
        0 <= s.stale_bytes() <= s.total_log_len(),
{
    lemma_sum_lens_nonneg(s.index.ptr_seq());
}


/// Setting a key and then reading it yields exactly the value written:
/// after a `set` of `k` to `v`, the mapping holds `v` at `k`.
pub proof fn lemma_set_then_get(pre: KvStore, post: KvStore, k: Seq<char>, v: Seq<char>)
    requires
        post.state() == pre.state().insert(k, v),
    ensures
        post.state().contains_key(k),
        post.state()[k] == v,
{
}

/// Setting a key and then removing it leaves it absent: after a `set` of
/// `k` followed by a `remove` of `k`, the mapping does not hold `k`.
pub proof fn lemma_set_remove_then_get(
    pre: KvStore,
    mid: KvStore,
    post: KvStore,
    k: Seq<char>,
    v: Seq<char>,
)
    requires
        mid.state() == pre.state().insert(k, v),
        post.state() == mid.state().remove(k),
    ensures
        !post.state().contains_key(k),
{
}

/// Removing an absent key leaves the whole store unchanged, so a later
/// read of that key still finds nothing.
pub proof fn lemma_remove_absent_then_get(pre: KvStore, post: KvStore, k: Seq<char>)
    requires
        pre.wf(),
        !pre.state().contains_key(k),
        post == pre,
    ensures
        !post.state().contains_key(k),
{
}

} // verus!
