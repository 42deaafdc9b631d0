use crate::codec::{
    chars_to_string, decode, encode, encoded, lemma_decode_encoded, lemma_decode_sound,
    lemma_encoded_line, spec_decode, str_to_chars, CmdV, OptData,
};
use crate::errors::KvError;
use crate::kv_index::{chars_eq, copy_chars, imap, IndexEntry, KvIndex, OffsetLen};
use crate::log_file::{vec_range, LogFile};
use crate::replay::{
    apply_cmd, lemma_lines_ordered, lemma_lines_replay, lemma_next_line_len_bounds,
    lemma_next_line_len_of, lemma_run_lines_entry, lemma_run_lines_push,
    lemma_run_lines_update_set, line_ok, lines_wf, next_line_len, replay, replay_suf,
    run_lines, sets_key, LineV,
};
use vstd::prelude::*;

verus! {

/// The sum of the record lengths the index points at.
pub open spec fn total_len(s: Seq<IndexEntry>) -> int
    decreases s.len(),
{
    if s.len() == 0 {
        0
    } else {
        total_len(s.drop_last()) + s.last().loc.len
    }
}

/// The store: one log and one index, the index always the result of
/// replaying the log.
pub struct KvStore {
    pub log: LogFile,
    pub index: KvIndex,
    pub lines: Ghost<Seq<LineV>>,
}

/// The value a record stores, read off the log.
pub open spec fn value_at(content: Seq<char>, loc: OffsetLen) -> Seq<char> {
    match spec_decode(content.subrange(loc.offset as int, loc.offset + loc.len)) {
        Some(CmdV::SetV { value, .. }) => value,
        _ => Seq::empty(),
    }
}

impl View for KvStore {
    type V = Map<Seq<char>, Seq<char>>;

    /// The mapping the store holds: each live key to its current value.
    open spec fn view(&self) -> Map<Seq<char>, Seq<char>> {
        Map::new(
            |k: Seq<char>| self.index@.contains_key(k),
            |k: Seq<char>| value_at(self.log@, self.index@[k]),
        )
    }
}

impl Default for KvStore {
    /// The store a process starts from when no log has been read: empty.
    fn default() -> (r: KvStore)
        ensures
            r.inv(),
            r@ == Map::<Seq<char>, Seq<char>>::empty(),
            r.log@ == Seq::<char>::empty(),
    {
        KvStore::new()
    }
}

impl KvStore {
    /// The index-to-log consistency invariant: the index's keys are unique,
    /// the ghost record list tiles the log exactly, and replaying it yields
    /// the index.
    pub open spec fn inv(self) -> bool {
        &&& self.index.wf()
        &&& lines_wf(self.log@, self.lines@)
        &&& run_lines(Map::empty(), self.lines@) == self.index@
    }

    /// What the invariant gives for one live key: its record lies inside
    /// the log and is exactly the encoding of a set of that key to its
    /// current value.
    pub proof fn lemma_inv_entry(self, k: Seq<char>)
        requires
            self.inv(),
            self.index@.contains_key(k),
        ensures
            self.index@[k].offset + self.index@[k].len <= self.log@.len(),
            spec_decode(
                self.log@.subrange(
                    self.index@[k].offset as int,
                    self.index@[k].offset + self.index@[k].len,
                ),
            ) == Some(CmdV::SetV { key: k, value: value_at(self.log@, self.index@[k]) }),
            self.log@.subrange(
                self.index@[k].offset as int,
                self.index@[k].offset + self.index@[k].len,
            ) == encoded(CmdV::SetV { key: k, value: value_at(self.log@, self.index@[k]) }),
            self.index@[k].len == encoded(
                CmdV::SetV { key: k, value: value_at(self.log@, self.index@[k]) },
            ).len(),
            exists|j: int|
                0 <= j < self.lines@.len() && sets_key(#[trigger] self.lines@[j], k, self.index@[k]),
    {
        let loc = self.index@[k];
        lemma_run_lines_entry(Map::empty(), self.lines@, k);
        let j = choose|j: int|
            0 <= j < self.lines@.len() && sets_key(#[trigger] self.lines@[j], k, loc);
        assert(line_ok(self.log@, self.lines@[j]));
        let slice = self.log@.subrange(loc.offset as int, loc.offset + loc.len);
        match self.lines@[j].cmd {
            CmdV::SetV { key, value } => {
                assert(spec_decode(slice) == Some(CmdV::SetV { key, value }));
                assert(value_at(self.log@, loc) == value);
                lemma_decode_sound(slice, CmdV::SetV { key, value });
            },
            _ => {
                assert(false);
            },
        }
    }

    /// An empty store over an empty log.
    pub fn new() -> (r: KvStore)
        ensures
            r.inv(),
            r@ == Map::<Seq<char>, Seq<char>>::empty(),
            r.log@ == Seq::<char>::empty(),
    {
        let r = KvStore {
            log: LogFile::new(),
            index: KvIndex::new(),
            lines: Ghost(Seq::empty()),
        };
        proof {
            assert(r@ =~= Map::<Seq<char>, Seq<char>>::empty());
        }
        r
    }

    /// Opens a store over the given log content, replaying every record to
    /// rebuild the index.  A record that does not decode, or a trailing
    /// fragment with no terminator, is a corrupt log and fails the open.
    #[verifier::rlimit(100)]
    pub fn open(content: Vec<char>) -> (r: Result<KvStore, KvError>)
        ensures
            match r {
                Ok(s) => s.inv() && s.log@ == content@ && Some(s.index@) == replay(content@),
                Err(e) => e == KvError::CorruptLog && replay(content@) is None,
            },
    {
        let n = content.len();
        let mut index = KvIndex::new();
        let ghost mut lines: Seq<LineV> = Seq::empty();
        let mut pos: usize = 0;
        while pos < n
            invariant
                pos <= n,
                n == content@.len(),
                index.wf(),
                replay(content@) == replay_suf(content@, pos as int, index@),
                lines_wf(content@.take(pos as int), lines),
                run_lines(Map::empty(), lines) == index@,
            decreases n - pos,
        {
            let mut end = pos;
            while end < n && content[end] != '\n'
                invariant
                    pos <= end <= n,
                    n == content@.len(),
                    forall|i: int| pos <= i < end ==> content@[i] != '\n',
                decreases n - end,
            {
                end = end + 1;
            }
            if end == n {
                proof {
                    let s = content@.skip(pos as int);
                    lemma_next_line_len_bounds(s);
                    match next_line_len(s) {
                        Some(l) => {
                            assert(s[l - 1] == content@[pos + l - 1]);
                            assert(false);
                        },
                        None => {},
                    }
                }
                return Err(KvError::CorruptLog);
            }
            let len = end + 1 - pos;
            let rec = vec_range(&content, pos, len);
            proof {
                assert(content@.skip(pos as int)[len - 1] == content@[end as int]);
                assert forall|i: int| 0 <= i < len - 1 implies content@.skip(pos as int)[i]
                    != '\n' by {
                    assert(content@.skip(pos as int)[i] == content@[pos + i]);
                }
                lemma_next_line_len_of(content@.skip(pos as int), len as int);
            }
            match decode(&rec) {
                Ok(d) => {
                    let loc = OffsetLen { offset: pos, len };
                    let ghost prior = index@;
                    let ghost prior_lines = lines;
                    match d {
                        OptData::SetData { key, value: _ } => {
                            let kc = str_to_chars(key.as_str());
                            index.insert(kc, loc);
                        },
                        OptData::RmData { key } => {
                            let kc = str_to_chars(key.as_str());
                            index.delete(&kc);
                        },
                        OptData::GetData { key: _ } => {},
                    }
                    proof {
                        assert(index@ == apply_cmd(prior, loc, d@));
                        assert(replay_suf(content@, pos as int, prior) == replay_suf(
                            content@,
                            pos + len,
                            apply_cmd(prior, loc, d@),
                        ));
                        lines = lines.push(LineV { loc, cmd: d@ });
                        lemma_run_lines_push(
                            Map::empty(),
                            prior_lines,
                            LineV { loc, cmd: d@ },
                        );
                        let t2 = content@.take(pos + len);
                        assert forall|j: int| 0 <= j < prior_lines.len() implies line_ok(
                            t2,
                            #[trigger] lines[j],
                        ) by {
                            assert(lines[j] == prior_lines[j]);
                            assert(line_ok(content@.take(pos as int), prior_lines[j]));
                            let lj = prior_lines[j];
                            assert(t2.subrange(lj.loc.offset as int, lj.loc.offset + lj.loc.len)
                                =~= content@.take(pos as int).subrange(
                                lj.loc.offset as int,
                                lj.loc.offset + lj.loc.len,
                            ));
                        }
                        assert(t2.subrange(pos as int, pos + len) =~= rec@);
                        assert(line_ok(t2, lines.last()));
                        if prior_lines.len() > 0 {
                            assert(lines[0] == prior_lines[0]);
                        }
                        assert(lines_wf(t2, lines));
                    }
                    pos = end + 1;
                },
                Err(_) => {
                    return Err(KvError::CorruptLog);
                },
            }
        }
        proof {
            assert(content@.take(n as int) =~= content@);
        }
        Ok(KvStore { log: LogFile::from_content(content), index, lines: Ghost(lines) })
    }

    /// Returns a copy of the value currently bound to `k`, or absent.  A
    /// range that decodes to anything but a set would be a corrupt log; the
    /// invariant rules it out, so this never fails.
    pub fn get(&mut self, k: String) -> (r: Result<Option<String>, KvError>)
        requires
            old(self).inv(),
        ensures
            *final(self) == *old(self),
            match r {
                Ok(opt) => match opt {
                    Some(v) => old(self)@.contains_key(k@) && v@ == old(self)@[k@],
                    None => !old(self)@.contains_key(k@),
                },
                Err(_) => false,
            },
    {
        let kc = str_to_chars(k.as_str());
        match self.index.lookup(&kc) {
            None => Ok(None),
            Some(loc) => {
                proof {
                    self.lemma_inv_entry(kc@);
                }
                let rec = self.log.read_at(loc.offset, loc.len);
                match decode(&rec) {
                    Ok(OptData::SetData { key: _, value }) => Ok(Some(value)),
                    _ => {
                        proof {
                            assert(false);
                        }
                        Err(KvError::CorruptLog)
                    },
                }
            },
        }
    }

    /// Drops `k`: appends a remove record (the superseded set's bytes stay
    /// behind as garbage until a compaction) and discards the index entry.
    /// A key with no live record fails with key-not-found and changes
    /// nothing.
    pub fn remove(&mut self, k: String) -> (r: Result<String, KvError>)
        requires
            old(self).inv(),
        ensures
            final(self).inv(),
            final(self)@ == old(self)@.remove(k@),
            match r {
                Ok(s) => old(self)@.contains_key(k@) && s@ == k@,
                Err(e) => !old(self)@.contains_key(k@) && e == KvError::KeyNotFound && *final(self)
                    == *old(self),
            },
            old(self)@.contains_key(k@) ==> final(self).log@ == old(self).log@ + encoded(
                CmdV::RmV { key: k@ },
            ),
    {
        let kc = str_to_chars(k.as_str());
        match self.index.lookup(&kc) {
            None => {
                proof {
                    assert(old(self)@.remove(k@) =~= old(self)@);
                }
                Err(KvError::KeyNotFound)
            },
            Some(_loc) => {
                let data = OptData::RmData { key: chars_to_string(&kc) };
                let rec = encode(&data);
                let off = self.log.append(&rec);
                self.index.delete(&kc);
                let ghost line = LineV {
                    loc: OffsetLen { offset: off, len: rec.len() },
                    cmd: CmdV::RmV { key: k@ },
                };
                proof {
                    lemma_decode_encoded(CmdV::RmV { key: k@ });
                    lemma_append_line(old(self).log@, old(self).lines@, rec@, line.cmd);
                    lemma_run_lines_push(Map::empty(), old(self).lines@, line);
                    self.lines@ = old(self).lines@.push(line);
                    assert(lines_wf(self.log@, self.lines@));
                    assert(run_lines(Map::empty(), self.lines@) == self.index@);
                    lemma_values_stable(*old(self), self.log@);
                    assert(self@ =~= old(self)@.remove(k@));
                }
                Ok(k)
            },
        }
    }

    /// Binds `k` to `v` and returns the previous value, if any.  A fresh
    /// key appends its record; a key whose new record has the length of its
    /// old one is overwritten in place; any other length change triggers a
    /// compaction, after which the log holds exactly the live records.
    pub fn set(&mut self, k: String, v: String) -> (r: Result<Option<String>, KvError>)
        requires
            old(self).inv(),
        ensures
            final(self).inv(),
            final(self)@ == old(self)@.insert(k@, v@),
            match r {
                Ok(prev) => match prev {
                    Some(p) => old(self)@.contains_key(k@) && p@ == old(self)@[k@],
                    None => !old(self)@.contains_key(k@),
                },
                Err(_) => false,
            },
            !old(self)@.contains_key(k@) ==> final(self).log@ == old(self).log@ + encoded(
                CmdV::SetV { key: k@, value: v@ },
            ),
            old(self)@.contains_key(k@) && encoded(CmdV::SetV { key: k@, value: v@ }).len() == old(
                self,
            ).index@[k@].len ==> final(self).log@.len() == old(self).log@.len(),
            old(self)@.contains_key(k@) && encoded(CmdV::SetV { key: k@, value: v@ }).len() != old(
                self,
            ).index@[k@].len ==> final(self).log@.len() == total_len(final(self).index.entries@),
    {
        let ghost vv = v@;
        let kc = str_to_chars(k.as_str());
        let data = OptData::SetData { key: k, value: v };
        let rec = encode(&data);
        match self.index.lookup(&kc) {
            None => {
                let off = self.log.append(&rec);
                self.index.insert(kc, OffsetLen { offset: off, len: rec.len() });
                proof {
                    let line = LineV {
                        loc: OffsetLen { offset: off, len: rec@.len() as usize },
                        cmd: CmdV::SetV { key: kc@, value: vv },
                    };
                    self.lines@ = old(self).lines@.push(line);
                    lemma_set_append(*old(self), *self, kc@, vv);
                }
                Ok(None)
            },
            Some(loc) => {
                proof {
                    self.lemma_inv_entry(kc@);
                }
                let oldrec = self.log.read_at(loc.offset, loc.len);
                let prev: String = match decode(&oldrec) {
                    Ok(OptData::SetData { key: _, value }) => value,
                    _ => {
                        proof {
                            assert(false);
                        }
                        return Err(KvError::CorruptLog);
                    },
                };
                if rec.len() == loc.len {
                    self.log.write_at(loc.offset, &rec);
                    proof {
                        let lines0 = old(self).lines@;
                        let j = choose|j: int|
                            0 <= j < lines0.len() && sets_key(#[trigger] lines0[j], kc@, loc);
                        let line = LineV { loc, cmd: CmdV::SetV { key: kc@, value: vv } };
                        self.lines@ = lines0.update(j, line);
                        lemma_set_inplace(*old(self), *self, kc@, vv, j);
                    }
                    Ok(Some(prev))
                } else {
                    self.rebuild_log(&kc, &rec, Ghost(vv));
                    Ok(Some(prev))
                }
            },
        }
    }

    /// Rewrites the log to hold exactly the live records, walking the index
    /// snapshot in ascending offset order — the records' physical order in
    /// the old file — and substituting `rec` for the record of `kc`.  The
    /// index and the log are both replaced only once the new content is
    /// complete, the model of writing a temporary file and renaming it onto
    /// the log's path.
    fn rebuild_log(&mut self, kc: &Vec<char>, rec: &Vec<char>, Ghost(vv): Ghost<Seq<char>>)
        requires
            old(self).inv(),
            old(self).index@.contains_key(kc@),
            rec@ == encoded(CmdV::SetV { key: kc@, value: vv }),
        ensures
            final(self).inv(),
            final(self)@ == old(self)@.insert(kc@, vv),
            final(self).log@.len() == total_len(final(self).index.entries@),
    {
        let n = self.index.len();
        let mut rest: Vec<IndexEntry> = Vec::new();
        let mut i: usize = 0;
        while i < n
            invariant
                i <= n,
                n == self.index.entries@.len(),
                *self == *old(self),
                rest@.len() == i,
                forall|a: int|
                    0 <= a < i ==> (#[trigger] rest@[a]).key@ == self.index.entries@[a].key@
                        && rest@[a].loc == self.index.entries@[a].loc,
            decreases n - i,
        {
            let e = IndexEntry {
                key: copy_chars(&self.index.entries[i].key),
                loc: self.index.entries[i].loc,
            };
            rest.push(e);
            i = i + 1;
        }
        proof {
            assert forall|a: int| 0 <= a < rest@.len() implies old(self).index@.contains_key(
                (#[trigger] rest@[a]).key@,
            ) && old(self).index@[rest@[a].key@] == rest@[a].loc by {
                crate::kv_index::lemma_imap_at(old(self).index.entries@, a);
            }
            assert forall|key: Seq<char>| old(self).index@.contains_key(key) implies exists|a: int|
                0 <= a < rest@.len() && (#[trigger] rest@[a]).key@ == key by {
                crate::kv_index::lemma_imap_contains(old(self).index.entries@, key);
                let a = choose|a: int|
                    0 <= a < old(self).index.entries@.len() && old(
                        self,
                    ).index.entries@[a].key@ == key;
                assert(rest@[a].key@ == key);
            }
        }
        let mut new_content: Vec<char> = Vec::new();
        let mut new_entries: Vec<IndexEntry> = Vec::new();
        let ghost mut new_lines: Seq<LineV> = Seq::empty();
        proof {
            assert(rebuild_inv(
                *old(self),
                kc@,
                vv,
                new_content@,
                new_entries@,
                new_lines,
                rest@,
            ));
        }
        while rest.len() > 0
            invariant
                *self == *old(self),
                rec@ == encoded(CmdV::SetV { key: kc@, value: vv }),
                rebuild_inv(*old(self), kc@, vv, new_content@, new_entries@, new_lines, rest@),
            decreases rest@.len(),
        {
            let mut mi: usize = 0;
            let mut t: usize = 1;
            while t < rest.len()
                invariant
                    mi < rest@.len(),
                    t <= rest@.len(),
                decreases rest@.len() - t,
            {
                if rest[t].loc.offset < rest[mi].loc.offset {
                    mi = t;
                }
                t = t + 1;
            }
            let ghost rest0 = rest@;
            let e = rest.remove(mi);
            let is_target = chars_eq(&e.key, kc);
            let ghost val = expected_val(*old(self), kc@, vv, e.key@);
            let mut bytes: Vec<char> = if is_target {
                copy_chars(rec)
            } else {
                proof {
                    old(self).lemma_inv_entry(e.key@);
                }
                self.log.read_at(e.loc.offset, e.loc.len)
            };
            proof {
                if !is_target {
                    old(self).lemma_inv_entry(e.key@);
                }
                assert(bytes@ == encoded(CmdV::SetV { key: e.key@, value: val }));
            }
            let off = new_content.len();
            let blen = bytes.len();
            let ghost nc0 = new_content@;
            let ghost ents0 = new_entries@;
            let ghost lines0 = new_lines;
            new_content.append(&mut bytes);
            let total = new_content.len();
            let loc2 = OffsetLen { offset: off, len: blen };
            let ghost line = LineV { loc: loc2, cmd: CmdV::SetV { key: e.key@, value: val } };
            new_entries.push(IndexEntry { key: e.key, loc: loc2 });
            proof {
                new_lines = new_lines.push(line);
                assert(new_entries@.last().key@ == rest0[mi as int].key@);
                assert(new_entries@.drop_last() =~= ents0);
                assert(new_entries@ =~= ents0.push(new_entries@.last()));
                lemma_rebuild_step(
                    *old(self),
                    kc@,
                    vv,
                    nc0,
                    ents0,
                    lines0,
                    rest0,
                    mi as int,
                    new_entries@.last(),
                    line,
                    new_content@,
                    rest@,
                );
            }
        }
        self.log.replace(new_content);
        self.index.entries = new_entries;
        proof {
            self.lines@ = new_lines;
            assert(rest@ =~= Seq::<IndexEntry>::empty());
            lemma_rebuild_finish(*old(self), *self, kc@, vv);
        }
    }

    /// The log's current size.
    pub fn log_size(&self) -> (n: usize)
        ensures
            n == self.log@.len(),
    {
        self.log.size()
    }

    /// Gives the log content up, for the surrounding process to persist.
    pub fn into_log(self) -> (r: Vec<char>)
        ensures
            r@ == self.log@,
    {
        self.log.into_content()
    }
}

/// Appending one canonical record to a tiled log extends the tiling by one
/// line.
pub proof fn lemma_append_line(old_log: Seq<char>, lines: Seq<LineV>, rec: Seq<char>, c: CmdV)
    requires
        lines_wf(old_log, lines),
        spec_decode(rec) == Some(c),
        old_log.len() + rec.len() <= usize::MAX,
    ensures
        lines_wf(
            old_log + rec,
            lines.push(
                LineV {
                    loc: OffsetLen { offset: old_log.len() as usize, len: rec.len() as usize },
                    cmd: c,
                },
            ),
        ),
{
    let nl = LineV {
        loc: OffsetLen { offset: old_log.len() as usize, len: rec.len() as usize },
        cmd: c,
    };
    let p = lines.push(nl);
    let content = old_log + rec;
    lemma_decode_sound(rec, c);
    lemma_encoded_line(c);
    assert(rec.len() >= 1);
    assert forall|j: int| 0 <= j < p.len() implies line_ok(content, #[trigger] p[j]) by {
        if j < lines.len() {
            assert(p[j] == lines[j]);
            assert(line_ok(old_log, lines[j]));
            let lj = lines[j];
            assert(content.subrange(lj.loc.offset as int, lj.loc.offset + lj.loc.len)
                =~= old_log.subrange(lj.loc.offset as int, lj.loc.offset + lj.loc.len));
        } else {
            assert(p[j] == nl);
            assert(content.subrange(old_log.len() as int, old_log.len() + rec.len() as int)
                =~= rec);
        }
    }
    assert(p.last() == nl);
    if lines.len() == 0 {
        assert(old_log.len() == 0);
        assert(p[0] == nl);
    } else {
        assert(p[0] == lines[0]);
        assert forall|j: int| 1 <= j < p.len() implies (#[trigger] p[j]).loc.offset == p[j
            - 1].loc.offset + p[j - 1].loc.len by {
            if j < lines.len() {
                assert(p[j] == lines[j] && p[j - 1] == lines[j - 1]);
            } else {
                assert(p[j] == nl && p[j - 1] == lines.last());
            }
        }
    }
}

/// Persistence: the log content of a consistent store replays to exactly
/// its index, so a store reopened over the same content sees the same
/// bindings.
pub proof fn lemma_persistence(s: KvStore)
    requires
        s.inv(),
    ensures
        replay(s.log@) == Some(s.index@),
{
    lemma_lines_replay(s.log@, s.lines@, 0, Map::empty());
    assert(s.lines@.skip(0) =~= s.lines@);
    if s.lines@.len() == 0 {
        assert(s.log@.len() == 0);
    }
}

/// A store reopened over a consistent store's saved log holds exactly the
/// same keys and values.
pub proof fn lemma_reopen_view(s: KvStore, s2: KvStore)
    requires
        s.inv(),
        s2.inv(),
        s2.log@ == s.log@,
        Some(s2.index@) == replay(s.log@),
    ensures
        s2@ == s@,
{
    lemma_persistence(s);
    assert(s2.index@ == s.index@);
    assert(s2@ =~= s@);
}

/// Reopening is deterministic: two stores opened over the same content hold
/// the same keys and values.
pub proof fn lemma_reopen_deterministic(content: Seq<char>, s1: KvStore, s2: KvStore)
    requires
        s1.inv(),
        s2.inv(),
        s1.log@ == content,
        s2.log@ == content,
        Some(s1.index@) == replay(content),
        Some(s2.index@) == replay(content),
    ensures
        s1@ == s2@,
{
    assert(s1.index@ == s2.index@);
    assert(s1@ =~= s2@);
}

/// The value each key holds once `kc` is rewritten to `vv`.
pub open spec fn expected_val(orig: KvStore, kc: Seq<char>, vv: Seq<char>, key: Seq<char>) -> Seq<
    char,
> {
    if key == kc {
        vv
    } else {
        value_at(orig.log@, orig.index@[key])
    }
}

/// The compactor's invariant.  What has been written so far (`nc`, `ents`,
/// `lines`) is a tiling of set records for distinct keys, one per live key
/// already taken out of the snapshot `rest`, each holding the value the key
/// is owed; `rest` still holds the untouched remainder of the snapshot, and
/// every live key stands in exactly one of the two.
pub open spec fn rebuild_inv(
    orig: KvStore,
    kc: Seq<char>,
    vv: Seq<char>,
    nc: Seq<char>,
    ents: Seq<IndexEntry>,
    lines: Seq<LineV>,
    rest: Seq<IndexEntry>,
) -> bool {
    &&& orig.inv()
    &&& orig.index@.contains_key(kc)
    &&& ents.len() == lines.len()
    &&& forall|t: int|
        0 <= t < lines.len() ==> (#[trigger] lines[t]).loc == ents[t].loc
            && orig.index@.contains_key(ents[t].key@) && lines[t].cmd == (CmdV::SetV {
            key: ents[t].key@,
            value: expected_val(orig, kc, vv, ents[t].key@),
        })
    &&& lines_wf(nc, lines)
    &&& run_lines(Map::empty(), lines) == imap(ents)
    &&& crate::kv_index::unique_keys(ents)
    &&& forall|a: int, b: int|
        0 <= a < b < rest.len() ==> (#[trigger] rest[a]).key@ != (#[trigger] rest[b]).key@
    &&& forall|a: int|
        0 <= a < rest.len() ==> orig.index@.contains_key((#[trigger] rest[a]).key@)
            && orig.index@[rest[a].key@] == rest[a].loc
    &&& forall|a: int|
        0 <= a < rest.len() ==> !imap(ents).contains_key((#[trigger] rest[a]).key@)
    &&& forall|key: Seq<char>|
        #[trigger] orig.index@.contains_key(key) <==> (imap(ents).contains_key(key) || exists|
            a: int,
        |
            0 <= a < rest.len() && (#[trigger] rest[a]).key@ == key)
    &&& nc.len() == total_len(ents)
}

/// One compactor round, as shaped by the loop: entry `mi` leaves the
/// snapshot and its record is written at the cursor.
pub open spec fn rebuild_step_shape(
    orig: KvStore,
    kc: Seq<char>,
    vv: Seq<char>,
    nc0: Seq<char>,
    ents0: Seq<IndexEntry>,
    lines0: Seq<LineV>,
    rest0: Seq<IndexEntry>,
    mi: int,
    ent: IndexEntry,
    line: LineV,
    nc1: Seq<char>,
    rest1: Seq<IndexEntry>,
) -> bool {
    &&& rebuild_inv(orig, kc, vv, nc0, ents0, lines0, rest0)
    &&& 0 <= mi < rest0.len()
    &&& rest1 == rest0.remove(mi)
    &&& ent.key@ == rest0[mi].key@
    &&& ent.loc == (OffsetLen {
        offset: nc0.len() as usize,
        len: encoded(
            CmdV::SetV { key: ent.key@, value: expected_val(orig, kc, vv, ent.key@) },
        ).len() as usize,
    })
    &&& line == (LineV {
        loc: ent.loc,
        cmd: CmdV::SetV { key: ent.key@, value: expected_val(orig, kc, vv, ent.key@) },
    })
    &&& nc1 == nc0 + encoded(
        CmdV::SetV { key: ent.key@, value: expected_val(orig, kc, vv, ent.key@) },
    )
    &&& nc1.len() <= usize::MAX
}

/// The round extends the tiling, the replayed map, and the uniqueness of
/// the written keys.
#[verifier::rlimit(100)]
proof fn lemma_rebuild_step_lines(
    orig: KvStore,
    kc: Seq<char>,
    vv: Seq<char>,
    nc0: Seq<char>,
    ents0: Seq<IndexEntry>,
    lines0: Seq<LineV>,
    rest0: Seq<IndexEntry>,
    mi: int,
    ent: IndexEntry,
    line: LineV,
    nc1: Seq<char>,
    rest1: Seq<IndexEntry>,
)
    requires
        rebuild_step_shape(orig, kc, vv, nc0, ents0, lines0, rest0, mi, ent, line, nc1, rest1),
    ensures
        lines_wf(nc1, lines0.push(line)),
        run_lines(Map::empty(), lines0.push(line)) == imap(ents0.push(ent)),
        crate::kv_index::unique_keys(ents0.push(ent)),
        nc1.len() == total_len(ents0.push(ent)),
        forall|t: int|
            0 <= t < lines0.push(line).len() ==> (#[trigger] lines0.push(line)[t]).loc
                == ents0.push(ent)[t].loc && orig.index@.contains_key(ents0.push(ent)[t].key@)
                && lines0.push(line)[t].cmd == (CmdV::SetV {
                key: ents0.push(ent)[t].key@,
                value: expected_val(orig, kc, vv, ents0.push(ent)[t].key@),
            }),
{
    let c = CmdV::SetV { key: ent.key@, value: expected_val(orig, kc, vv, ent.key@) };
    let rec = encoded(c);
    let ents1 = ents0.push(ent);
    let lines1 = lines0.push(line);
    lemma_decode_encoded(c);
    lemma_append_line(nc0, lines0, rec, c);
    lemma_run_lines_push(Map::empty(), lines0, line);
    assert(ents1.drop_last() =~= ents0);
    assert(imap(ents1) == imap(ents0).insert(ent.key@, ent.loc));
    assert(total_len(ents1) == total_len(ents0) + ent.loc.len);
    crate::kv_index::lemma_imap_contains(ents0, ent.key@);
    assert forall|t: int|
        0 <= t < lines1.len() implies (#[trigger] lines1[t]).loc == ents1[t].loc
        && orig.index@.contains_key(ents1[t].key@) && lines1[t].cmd == (CmdV::SetV {
        key: ents1[t].key@,
        value: expected_val(orig, kc, vv, ents1[t].key@),
    }) by {
        if t < lines0.len() {
            assert(lines1[t] == lines0[t]);
            assert(ents1[t] == ents0[t]);
        } else {
            assert(lines1[t] == line);
            assert(ents1[t] == ent);
        }
    }
    assert forall|a: int, b: int|
        0 <= a < b < ents1.len() implies (#[trigger] ents1[a]).key@ != (
    #[trigger] ents1[b]).key@ by {
        if b < ents0.len() {
            assert(ents1[a] == ents0[a] && ents1[b] == ents0[b]);
        } else {
            assert(ents1[b] == ent);
            assert(ents1[a] == ents0[a]);
            assert(!imap(ents0).contains_key(ent.key@));
            crate::kv_index::lemma_imap_at(ents0, a);
        }
    }
}

/// The round keeps the snapshot remainder distinct, live, and disjoint
/// from what has been written.
#[verifier::rlimit(100)]
proof fn lemma_rebuild_step_rest(
    orig: KvStore,
    kc: Seq<char>,
    vv: Seq<char>,
    nc0: Seq<char>,
    ents0: Seq<IndexEntry>,
    lines0: Seq<LineV>,
    rest0: Seq<IndexEntry>,
    mi: int,
    ent: IndexEntry,
    line: LineV,
    nc1: Seq<char>,
    rest1: Seq<IndexEntry>,
)
    requires
        rebuild_step_shape(orig, kc, vv, nc0, ents0, lines0, rest0, mi, ent, line, nc1, rest1),
    ensures
        forall|a: int, b: int|
            0 <= a < b < rest1.len() ==> (#[trigger] rest1[a]).key@ != (#[trigger] rest1[b]).key@,
        forall|a: int|
            0 <= a < rest1.len() ==> orig.index@.contains_key((#[trigger] rest1[a]).key@)
                && orig.index@[rest1[a].key@] == rest1[a].loc,
        forall|a: int|
            0 <= a < rest1.len() ==> !imap(ents0.push(ent)).contains_key(
                (#[trigger] rest1[a]).key@,
            ),
{
    let ents1 = ents0.push(ent);
    rest0.remove_ensures(mi);
    assert(rest1.len() == rest0.len() - 1);
    assert(ents1.drop_last() =~= ents0);
    assert(imap(ents1) == imap(ents0).insert(ent.key@, ent.loc));
    assert forall|a: int, b: int|
        0 <= a < b < rest1.len() implies (#[trigger] rest1[a]).key@ != (
    #[trigger] rest1[b]).key@ by {
        assert(rest1[a] == if a < mi {
            rest0[a]
        } else {
            rest0[a + 1]
        });
        assert(rest1[b] == if b < mi {
            rest0[b]
        } else {
            rest0[b + 1]
        });
    }
    assert forall|a: int|
        0 <= a < rest1.len() implies orig.index@.contains_key((#[trigger] rest1[a]).key@)
        && orig.index@[rest1[a].key@] == rest1[a].loc && rest1[a].key@ != ent.key@ by {
        assert(rest1[a] == if a < mi {
            rest0[a]
        } else {
            rest0[a + 1]
        });
    }
    assert forall|a: int| 0 <= a < rest1.len() implies !imap(ents1).contains_key(
        (#[trigger] rest1[a]).key@,
    ) by {
        assert(rest1[a].key@ != ent.key@);
    }
}

/// The round moves one key from the snapshot side to the written side and
/// loses none.
#[verifier::rlimit(100)]
proof fn lemma_rebuild_step_domain(
    orig: KvStore,
    kc: Seq<char>,
    vv: Seq<char>,
    nc0: Seq<char>,
    ents0: Seq<IndexEntry>,
    lines0: Seq<LineV>,
    rest0: Seq<IndexEntry>,
    mi: int,
    ent: IndexEntry,
    line: LineV,
    nc1: Seq<char>,
    rest1: Seq<IndexEntry>,
)
    requires
        rebuild_step_shape(orig, kc, vv, nc0, ents0, lines0, rest0, mi, ent, line, nc1, rest1),
    ensures
        forall|key: Seq<char>|
            #[trigger] orig.index@.contains_key(key) <==> (imap(ents0.push(ent)).contains_key(key)
                || exists|a: int| 0 <= a < rest1.len() && (#[trigger] rest1[a]).key@ == key),
{
    let ents1 = ents0.push(ent);
    rest0.remove_ensures(mi);
    assert(ents1.drop_last() =~= ents0);
    assert(imap(ents1) == imap(ents0).insert(ent.key@, ent.loc));
    assert forall|key: Seq<char>| #[trigger]
        orig.index@.contains_key(key) implies (imap(ents1).contains_key(key) || exists|a: int|
        0 <= a < rest1.len() && (#[trigger] rest1[a]).key@ == key) by {
        if key != ent.key@ && !imap(ents0).contains_key(key) {
            let a = choose|a: int| 0 <= a < rest0.len() && (#[trigger] rest0[a]).key@ == key;
            assert(a != mi);
            if a < mi {
                assert(rest1[a].key@ == key);
            } else {
                assert(rest1[a - 1].key@ == key);
            }
        }
    }
    assert forall|key: Seq<char>|
        imap(ents1).contains_key(key) || exists|a: int|
            0 <= a < rest1.len() && (#[trigger] rest1[a]).key@
                == key implies #[trigger] orig.index@.contains_key(key) by {
        if imap(ents1).contains_key(key) {
            if key != ent.key@ {
                assert(imap(ents0).contains_key(key));
            }
        } else {
            let a = choose|a: int| 0 <= a < rest1.len() && (#[trigger] rest1[a]).key@ == key;
            assert(rest1[a] == if a < mi {
                rest0[a]
            } else {
                rest0[a + 1]
            });
        }
    }
}

/// One compactor round keeps the whole invariant.
pub proof fn lemma_rebuild_step(
    orig: KvStore,
    kc: Seq<char>,
    vv: Seq<char>,
    nc0: Seq<char>,
    ents0: Seq<IndexEntry>,
    lines0: Seq<LineV>,
    rest0: Seq<IndexEntry>,
    mi: int,
    ent: IndexEntry,
    line: LineV,
    nc1: Seq<char>,
    rest1: Seq<IndexEntry>,
)
    requires
        rebuild_step_shape(orig, kc, vv, nc0, ents0, lines0, rest0, mi, ent, line, nc1, rest1),
    ensures
        rebuild_inv(orig, kc, vv, nc1, ents0.push(ent), lines0.push(line), rest1),
{
    lemma_rebuild_step_lines(orig, kc, vv, nc0, ents0, lines0, rest0, mi, ent, line, nc1, rest1);
    lemma_rebuild_step_rest(orig, kc, vv, nc0, ents0, lines0, rest0, mi, ent, line, nc1, rest1);
    lemma_rebuild_step_domain(orig, kc, vv, nc0, ents0, lines0, rest0, mi, ent, line, nc1, rest1);
}

/// Once the snapshot is empty the rewrite is a compacted, consistent store
/// holding the old bindings with `kc` rewritten.
#[verifier::rlimit(100)]
pub proof fn lemma_rebuild_finish(orig: KvStore, post: KvStore, kc: Seq<char>, vv: Seq<char>)
    requires
        rebuild_inv(orig, kc, vv, post.log@, post.index.entries@, post.lines@, Seq::empty()),
    ensures
        post.inv(),
        post@ == orig@.insert(kc, vv),
        post.log@.len() == total_len(post.index.entries@),
{
    let ents = post.index.entries@;
    assert forall|key: Seq<char>| #[trigger]
        imap(ents).contains_key(key) implies orig.index@.contains_key(key) && value_at(
        post.log@,
        imap(ents)[key],
    ) == expected_val(orig, kc, vv, key) by {
        crate::kv_index::lemma_imap_contains(ents, key);
        let t = choose|t: int| 0 <= t < ents.len() && ents[t].key@ == key;
        crate::kv_index::lemma_imap_at(ents, t);
        assert(post.lines@[t].loc == ents[t].loc);
        assert(line_ok(post.log@, post.lines@[t]));
    }
    assert forall|key: Seq<char>| #[trigger]
        orig.index@.contains_key(key) implies imap(ents).contains_key(key) by {}
    assert(post@ =~= orig@.insert(kc, vv));
}

/// Extending the log, or leaving it as it is, changes no live key's
/// record, so no live key's value.
#[verifier::rlimit(100)]
pub proof fn lemma_values_stable(pre: KvStore, newlog: Seq<char>)
    requires
        pre.inv(),
        newlog.len() >= pre.log@.len(),
        forall|i: int| 0 <= i < pre.log@.len() ==> newlog[i] == pre.log@[i],
    ensures
        forall|k2: Seq<char>|
            pre.index@.contains_key(k2) ==> value_at(newlog, pre.index@[k2]) == value_at(
                pre.log@,
                pre.index@[k2],
            ),
{
    assert forall|k2: Seq<char>| pre.index@.contains_key(k2) implies value_at(
        newlog,
        pre.index@[k2],
    ) == value_at(pre.log@, pre.index@[k2]) by {
        pre.lemma_inv_entry(k2);
        let loc2 = pre.index@[k2];
        assert(newlog.subrange(loc2.offset as int, loc2.offset + loc2.len) =~= pre.log@.subrange(
            loc2.offset as int,
            loc2.offset + loc2.len,
        ));
    }
}

/// A fresh key's record appended and indexed keeps the store consistent and
/// binds exactly that key.
#[verifier::rlimit(100)]
pub proof fn lemma_set_append(pre: KvStore, post: KvStore, k: Seq<char>, v: Seq<char>)
    requires
        pre.inv(),
        !pre.index@.contains_key(k),
        pre.log@.len() + encoded(CmdV::SetV { key: k, value: v }).len() <= usize::MAX,
        post.log@ == pre.log@ + encoded(CmdV::SetV { key: k, value: v }),
        post.index.wf(),
        post.index@ == pre.index@.insert(
            k,
            OffsetLen {
                offset: pre.log@.len() as usize,
                len: encoded(CmdV::SetV { key: k, value: v }).len() as usize,
            },
        ),
        post.lines@ == pre.lines@.push(
            LineV {
                loc: OffsetLen {
                    offset: pre.log@.len() as usize,
                    len: encoded(CmdV::SetV { key: k, value: v }).len() as usize,
                },
                cmd: CmdV::SetV { key: k, value: v },
            },
        ),
    ensures
        post.inv(),
        post@ == pre@.insert(k, v),
{
    let c = CmdV::SetV { key: k, value: v };
    let rec = encoded(c);
    let loc = OffsetLen { offset: pre.log@.len() as usize, len: rec.len() as usize };
    lemma_decode_encoded(c);
    lemma_append_line(pre.log@, pre.lines@, rec, c);
    lemma_run_lines_push(Map::empty(), pre.lines@, LineV { loc, cmd: c });
    assert(lines_wf(post.log@, post.lines@));
    assert(run_lines(Map::empty(), post.lines@) == post.index@);
    assert(post.log@.subrange(loc.offset as int, loc.offset + loc.len) =~= rec);
    assert(value_at(post.log@, loc) == v);
    lemma_values_stable(pre, post.log@);
    assert(post@ =~= pre@.insert(k, v));
}

/// The shape of an in-place overwrite: a same-length set of the same key
/// written over its record, with the index untouched and the record list
/// updated at the overwritten line.
pub open spec fn inplace_shape(pre: KvStore, post: KvStore, k: Seq<char>, v: Seq<char>, j: int) -> bool {
    &&& pre.inv()
    &&& pre.index@.contains_key(k)
    &&& encoded(CmdV::SetV { key: k, value: v }).len() == pre.index@[k].len
    &&& 0 <= j < pre.lines@.len()
    &&& sets_key(pre.lines@[j], k, pre.index@[k])
    &&& post.log@ == pre.log@.take(pre.index@[k].offset as int) + encoded(
        CmdV::SetV { key: k, value: v },
    ) + pre.log@.skip(pre.index@[k].offset + pre.index@[k].len)
    &&& post.index == pre.index
    &&& post.lines@ == pre.lines@.update(
        j,
        LineV { loc: pre.index@[k], cmd: CmdV::SetV { key: k, value: v } },
    )
}

/// An in-place overwrite changes no character outside the overwritten
/// range.
#[verifier::rlimit(100)]
pub proof fn lemma_inplace_agree(pre: KvStore, post: KvStore, k: Seq<char>, v: Seq<char>, j: int)
    requires
        inplace_shape(pre, post, k, v, j),
    ensures
        post.log@.len() == pre.log@.len(),
        post.log@.subrange(pre.index@[k].offset as int, pre.index@[k].offset + pre.index@[k].len)
            == encoded(CmdV::SetV { key: k, value: v }),
        forall|i: int|
            0 <= i < post.log@.len() && !(pre.index@[k].offset <= i < pre.index@[k].offset
                + pre.index@[k].len) ==> post.log@[i] == pre.log@[i],
{
    let loc = pre.index@[k];
    pre.lemma_inv_entry(k);
    lemma_splice_agree(
        pre.log@,
        encoded(CmdV::SetV { key: k, value: v }),
        loc.offset as int,
        loc.len as int,
        post.log@,
    );
}

/// Splicing a same-length piece into a sequence: the piece reads back and
/// nothing else moves.
pub proof fn lemma_splice_agree(a: Seq<char>, rec: Seq<char>, off: int, len: int, b: Seq<char>)
    requires
        0 <= off,
        off + len <= a.len(),
        rec.len() == len,
        b == a.take(off) + rec + a.skip(off + len),
    ensures
        b.len() == a.len(),
        b.subrange(off, off + len) == rec,
        forall|i: int| 0 <= i < a.len() && !(off <= i < off + len) ==> b[i] == a[i],
{
    assert(b.subrange(off, off + len) =~= rec);
}

/// After an in-place overwrite the record list still tiles the log.
#[verifier::rlimit(100)]
pub proof fn lemma_inplace_wf(pre: KvStore, post: KvStore, k: Seq<char>, v: Seq<char>, j: int)
    requires
        inplace_shape(pre, post, k, v, j),
    ensures
        lines_wf(post.log@, post.lines@),
{
    let loc = pre.index@[k];
    let c = CmdV::SetV { key: k, value: v };
    let lines0 = pre.lines@;
    let lines1 = post.lines@;
    let line = LineV { loc, cmd: c };
    pre.lemma_inv_entry(k);
    lemma_decode_encoded(c);
    lemma_inplace_agree(pre, post, k, v, j);
    assert forall|i: int| 0 <= i < lines1.len() implies line_ok(
        post.log@,
        #[trigger] lines1[i],
    ) by {
        if i == j {
            assert(lines1[i] == line);
        } else {
            assert(lines1[i] == lines0[i]);
            assert(line_ok(pre.log@, lines0[i]));
            if i < j {
                lemma_lines_ordered(pre.log@, lines0, i, j);
            } else {
                lemma_lines_ordered(pre.log@, lines0, j, i);
            }
            let li = lines0[i];
            assert(post.log@.subrange(li.loc.offset as int, li.loc.offset + li.loc.len)
                =~= pre.log@.subrange(li.loc.offset as int, li.loc.offset + li.loc.len));
        }
    }
    assert(lines1.len() == lines0.len());
    assert(lines1[0].loc == lines0[0].loc);
    assert(lines1.last().loc == lines0.last().loc);
    assert forall|i: int|
        1 <= i < lines1.len() implies (#[trigger] lines1[i]).loc.offset == lines1[i
        - 1].loc.offset + lines1[i - 1].loc.len by {
        assert(lines1[i].loc == lines0[i].loc);
        assert(lines1[i - 1].loc == lines0[i - 1].loc);
    }
}

/// An in-place overwrite leaves every other key's record, and so its value,
/// untouched.
#[verifier::rlimit(100)]
pub proof fn lemma_inplace_values(pre: KvStore, post: KvStore, k: Seq<char>, v: Seq<char>, j: int)
    requires
        inplace_shape(pre, post, k, v, j),
    ensures
        value_at(post.log@, pre.index@[k]) == v,
        forall|k2: Seq<char>|
            pre.index@.contains_key(k2) && k2 != k ==> value_at(post.log@, pre.index@[k2])
                == value_at(pre.log@, pre.index@[k2]),
{
    let loc = pre.index@[k];
    let lines0 = pre.lines@;
    lemma_decode_encoded(CmdV::SetV { key: k, value: v });
    lemma_inplace_agree(pre, post, k, v, j);
    assert forall|k2: Seq<char>|
        pre.index@.contains_key(k2) && k2 != k implies value_at(post.log@, pre.index@[k2])
        == value_at(pre.log@, pre.index@[k2]) by {
        pre.lemma_inv_entry(k2);
        let loc2 = pre.index@[k2];
        let j2 = choose|j2: int|
            0 <= j2 < lines0.len() && sets_key(#[trigger] lines0[j2], k2, loc2);
        assert(j2 != j);
        if j2 < j {
            lemma_lines_ordered(pre.log@, lines0, j2, j);
        } else {
            lemma_lines_ordered(pre.log@, lines0, j, j2);
        }
        assert(loc2 == lines0[j2].loc);
        assert(post.log@.subrange(loc2.offset as int, loc2.offset + loc2.len) =~= pre.log@.subrange(
            loc2.offset as int,
            loc2.offset + loc2.len,
        ));
    }
}

/// An in-place overwrite of a key's record by a same-length set of the same
/// key rebinds exactly that key and moves nothing.
#[verifier::rlimit(100)]
pub proof fn lemma_set_inplace(pre: KvStore, post: KvStore, k: Seq<char>, v: Seq<char>, j: int)
    requires
        inplace_shape(pre, post, k, v, j),
    ensures
        post.inv(),
        post@ == pre@.insert(k, v),
        post.log@.len() == pre.log@.len(),
{
    let lines0 = pre.lines@;
    let lines1 = post.lines@;
    lemma_inplace_agree(pre, post, k, v, j);
    lemma_inplace_wf(pre, post, k, v, j);
    lemma_inplace_values(pre, post, k, v, j);
    assert forall|i: int|
        0 <= i < lines0.len() && i != j implies lines0[i] == #[trigger] lines1[i] by {}
    lemma_run_lines_update_set(Map::empty(), lines0, lines1, j, k);
    assert(run_lines(Map::empty(), lines1) == post.index@);
    assert(post@ =~= pre@.insert(k, v));
}

/// Setting a key twice leaves the later value: after `set(k, v1)` and
/// `set(k, v2)` the store's mapping holds `v2` at `k`, whatever it held
/// before.
pub proof fn lemma_set_set_get(
    m: Map<Seq<char>, Seq<char>>,
    k: Seq<char>,
    v1: Seq<char>,
    v2: Seq<char>,
)
    ensures
        m.insert(k, v1).insert(k, v2).contains_key(k),
        m.insert(k, v1).insert(k, v2)[k] == v2,
{
}

/// A removed key reads as not found: after `set(k, v)` and `remove(k)` the
/// store's mapping has no entry at `k`.
pub proof fn lemma_set_remove_get(m: Map<Seq<char>, Seq<char>>, k: Seq<char>, v: Seq<char>)
    ensures
        !m.insert(k, v).remove(k).contains_key(k),
{
}

/// A compacted log holds no unreachable bytes: with a single live key, the
/// whole log is exactly that key's current record, however many sets led
/// here.
#[verifier::rlimit(100)]
pub proof fn lemma_compacted_single_key(s: KvStore, k: Seq<char>)
    requires
        s.inv(),
        s.log@.len() == total_len(s.index.entries@),
        s.index.entries@.len() == 1,
        s.index.entries@[0].key@ == k,
    ensures
        s@.contains_key(k),
        s.log@.len() == encoded(CmdV::SetV { key: k, value: s@[k] }).len(),
{
    let ents = s.index.entries@;
    crate::kv_index::lemma_imap_at(ents, 0);
    assert(s.index@.contains_key(k));
    assert(s.index@[k] == ents[0].loc);
    s.lemma_inv_entry(k);
    assert(s@.contains_key(k));
    assert(s@[k] == value_at(s.log@, s.index@[k]));
    assert(ents.drop_last() =~= Seq::<IndexEntry>::empty());
    assert(total_len(ents.drop_last()) == 0);
    assert(ents.last() == ents[0]);
    assert(total_len(ents) == ents[0].loc.len);
}

} // verus!
