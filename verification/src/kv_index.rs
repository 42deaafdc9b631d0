use vstd::prelude::*;

verus! {

/// Where a record lies in the log: its starting offset and its length,
/// terminator included.
#[derive(Clone, Copy, Debug, PartialEq, Eq, Structural)]
pub struct OffsetLen {
    pub offset: usize,
    pub len: usize,
}

/// One live binding: a key and the range of its current record.
pub struct IndexEntry {
    pub key: Vec<char>,
    pub loc: OffsetLen,
}

/// The in-memory index: a mapping from key to the location of that key's
/// current live record.  Never persisted; rebuilt by replay at open time.
pub struct KvIndex {
    pub entries: Vec<IndexEntry>,
}

/// The mapping an entry list stands for; a later entry for the same key
/// would win, and well-formed lists have no two entries for one key.
pub open spec fn imap(s: Seq<IndexEntry>) -> Map<Seq<char>, OffsetLen>
    decreases s.len(),
{
    if s.len() == 0 {
        Map::empty()
    } else {
        imap(s.drop_last()).insert(s.last().key@, s.last().loc)
    }
}

/// No two entries bind the same key.
pub open spec fn unique_keys(s: Seq<IndexEntry>) -> bool {
    forall|i: int, j: int| 0 <= i < j < s.len() ==> s[i].key@ != s[j].key@
}

/// A key is in the mapping exactly when some entry binds it.
pub proof fn lemma_imap_contains(s: Seq<IndexEntry>, k: Seq<char>)
    ensures
        imap(s).contains_key(k) <==> exists|i: int| 0 <= i < s.len() && s[i].key@ == k,
    decreases s.len(),
{
    if s.len() == 0 {
    } else {
        lemma_imap_contains(s.drop_last(), k);
        if s.last().key@ == k {
            assert(s[s.len() - 1].key@ == k);
        } else if imap(s).contains_key(k) {
            let i = choose|i: int| 0 <= i < s.len() - 1 && s.drop_last()[i].key@ == k;
            assert(s[i].key@ == k);
        } else {
            assert(forall|i: int| 0 <= i < s.len() - 1 ==> s.drop_last()[i] == s[i]);
        }
    }
}

/// In a well-formed list, each entry's key maps to that entry's location.
pub proof fn lemma_imap_at(s: Seq<IndexEntry>, i: int)
    requires
        unique_keys(s),
        0 <= i < s.len(),
    ensures
        imap(s).contains_key(s[i].key@),
        imap(s)[s[i].key@] == s[i].loc,
    decreases s.len(),
{
    if i == s.len() - 1 {
    } else {
        assert(forall|j: int| 0 <= j < s.len() - 1 ==> s.drop_last()[j] == s[j]);
        lemma_imap_at(s.drop_last(), i);
        assert(s[i].key@ != s.last().key@);
    }
}

/// Removing the one entry that binds a key removes the key from the mapping.
pub proof fn lemma_imap_remove(s: Seq<IndexEntry>, i: int)
    requires
        unique_keys(s),
        0 <= i < s.len(),
    ensures
        imap(s.remove(i)) == imap(s).remove(s[i].key@),
    decreases s.len(),
{
    let k = s[i].key@;
    if i == s.len() - 1 {
        assert(s.remove(i) =~= s.drop_last());
        lemma_imap_contains(s.drop_last(), k);
        assert(forall|j: int| 0 <= j < s.len() - 1 ==> s.drop_last()[j] == s[j]);
        assert(!imap(s.drop_last()).contains_key(k));
        assert(imap(s.drop_last()).insert(k, s[i].loc).remove(k) =~= imap(s.drop_last()));
    } else {
        assert(forall|j: int| 0 <= j < s.len() - 1 ==> s.drop_last()[j] == s[j]);
        lemma_imap_remove(s.drop_last(), i);
        assert(s.remove(i).drop_last() =~= s.drop_last().remove(i));
        assert(s.remove(i).last() == s.last());
        assert(imap(s.remove(i)) == imap(s.drop_last().remove(i)).insert(
            s.last().key@,
            s.last().loc,
        ));
        assert(s.last().key@ != k);
        assert(imap(s.drop_last()).remove(k).insert(s.last().key@, s.last().loc) =~= imap(
            s.drop_last(),
        ).insert(s.last().key@, s.last().loc).remove(k));
    }
}

/// Compares two character vectors.
pub fn chars_eq(a: &Vec<char>, b: &Vec<char>) -> (r: bool)
    ensures
        r == (a@ == b@),
{
    if a.len() != b.len() {
        return false;
    }
    let n = a.len();
    let mut i: usize = 0;
    while i < n
        invariant
            i <= n,
            n == a@.len() == b@.len(),
            forall|j: int| 0 <= j < i ==> a@[j] == b@[j],
        decreases n - i,
    {
        if a[i] != b[i] {
            return false;
        }
        i = i + 1;
    }
    proof {
        assert(a@ =~= b@);
    }
    true
}

/// Copies a character vector.
pub fn copy_chars(v: &Vec<char>) -> (r: Vec<char>)
    ensures
        r@ == v@,
{
    let n = v.len();
    let mut r: Vec<char> = Vec::new();
    let mut i: usize = 0;
    while i < n
        invariant
            i <= n,
            n == v@.len(),
            r@ == v@.take(i as int),
        decreases n - i,
    {
        r.push(v[i]);
        i = i + 1;
        proof {
            assert(r@ =~= v@.take(i as int));
        }
    }
    proof {
        assert(v@.take(n as int) =~= v@);
    }
    r
}

impl View for KvIndex {
    type V = Map<Seq<char>, OffsetLen>;

    open spec fn view(&self) -> Map<Seq<char>, OffsetLen> {
        imap(self.entries@)
    }
}

impl KvIndex {
    pub open spec fn wf(&self) -> bool {
        unique_keys(self.entries@)
    }

    /// An empty index.
    pub fn new() -> (r: KvIndex)
        ensures
            r.wf(),
            r@ == Map::<Seq<char>, OffsetLen>::empty(),
            r.entries@.len() == 0,
    {
        KvIndex { entries: Vec::new() }
    }

    /// Finds the position of the entry binding `k`, if one does.
    fn position_of(&self, k: &Vec<char>) -> (r: Option<usize>)
        ensures
            match r {
                Some(i) => i < self.entries@.len() && self.entries@[i as int].key@ == k@,
                None => forall|i: int|
                    0 <= i < self.entries@.len() ==> self.entries@[i].key@ != k@,
            },
    {
        let n = self.entries.len();
        let mut i: usize = 0;
        while i < n
            invariant
                i <= n,
                n == self.entries@.len(),
                forall|j: int| 0 <= j < i ==> self.entries@[j].key@ != k@,
            decreases n - i,
        {
            if chars_eq(&self.entries[i].key, k) {
                return Some(i);
            }
            i = i + 1;
        }
        None
    }

    /// The location of `k`'s current record, or absent.
    pub fn lookup(&self, k: &Vec<char>) -> (r: Option<OffsetLen>)
        requires
            self.wf(),
        ensures
            match r {
                Some(loc) => self@.contains_key(k@) && self@[k@] == loc,
                None => !self@.contains_key(k@),
            },
    {
        match self.position_of(k) {
            Some(i) => {
                proof {
                    lemma_imap_at(self.entries@, i as int);
                }
                Some(self.entries[i].loc)
            },
            None => {
                proof {
                    lemma_imap_contains(self.entries@, k@);
                }
                None
            },
        }
    }

    /// Binds `k` to `loc`, returning the location it replaced, if any.
    pub fn insert(&mut self, k: Vec<char>, loc: OffsetLen) -> (r: Option<OffsetLen>)
        requires
            old(self).wf(),
        ensures
            final(self).wf(),
            final(self)@ == old(self)@.insert(k@, loc),
            match r {
                Some(p) => old(self)@.contains_key(k@) && old(self)@[k@] == p,
                None => !old(self)@.contains_key(k@),
            },
    {
        let prev: Option<OffsetLen> = match self.position_of(&k) {
            Some(i) => {
                proof {
                    lemma_imap_at(self.entries@, i as int);
                    lemma_imap_remove(self.entries@, i as int);
                }
                let p = self.entries[i].loc;
                let ghost before = self.entries@;
                self.entries.remove(i);
                proof {
                    assert forall|a: int, b: int|
                        0 <= a < b < self.entries@.len() implies self.entries@[a].key@
                        != self.entries@[b].key@ by {
                        assert(self.entries@[a] == if a < i { before[a] } else { before[a + 1] });
                        assert(self.entries@[b] == if b < i { before[b] } else { before[b + 1] });
                    }
                    assert forall|a: int|
                        0 <= a < self.entries@.len() implies self.entries@[a].key@ != k@ by {
                        assert(self.entries@[a] == if a < i { before[a] } else { before[a + 1] });
                    }
                }
                Some(p)
            },
            None => {
                proof {
                    lemma_imap_contains(self.entries@, k@);
                    assert(old(self)@.remove(k@) =~= old(self)@);
                }
                None
            },
        };
        let ghost mid = self.entries@;
        self.entries.push(IndexEntry { key: k, loc });
        proof {
            assert(self.entries@.drop_last() =~= mid);
            assert(imap(self.entries@) == imap(mid).insert(k@, loc));
            assert(imap(mid) == old(self)@.remove(k@));
            assert(old(self)@.remove(k@).insert(k@, loc) =~= old(self)@.insert(k@, loc));
            assert(forall|j: int| 0 <= j < mid.len() ==> self.entries@[j] == mid[j]);
        }
        prev
    }

    /// Drops `k`'s binding, returning the location it had; absent keys
    /// signal not-found to the caller.
    pub fn delete(&mut self, k: &Vec<char>) -> (r: Option<OffsetLen>)
        requires
            old(self).wf(),
        ensures
            final(self).wf(),
            final(self)@ == old(self)@.remove(k@),
            match r {
                Some(p) => old(self)@.contains_key(k@) && old(self)@[k@] == p,
                None => !old(self)@.contains_key(k@) && *final(self) == *old(self),
            },
    {
        match self.position_of(k) {
            Some(i) => {
                proof {
                    lemma_imap_at(self.entries@, i as int);
                    lemma_imap_remove(self.entries@, i as int);
                }
                let p = self.entries[i].loc;
                let ghost before = self.entries@;
                self.entries.remove(i);
                proof {
                    assert forall|a: int, b: int|
                        0 <= a < b < self.entries@.len() implies self.entries@[a].key@
                        != self.entries@[b].key@ by {
                        assert(self.entries@[a] == if a < i { before[a] } else { before[a + 1] });
                        assert(self.entries@[b] == if b < i { before[b] } else { before[b + 1] });
                    }
                }
                Some(p)
            },
            None => {
                proof {
                    lemma_imap_contains(self.entries@, k@);
                    assert(old(self)@.remove(k@) =~= old(self)@);
                }
                None
            },
        }
    }

    /// How many keys are live.
    pub fn len(&self) -> (n: usize)
        ensures
            n == self.entries@.len(),
    {
        self.entries.len()
    }
}

} // verus!
