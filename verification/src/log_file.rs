use vstd::prelude::*;

verus! {

/// Copies `len` characters of `v` starting at `off`.
pub fn vec_range(v: &Vec<char>, off: usize, len: usize) -> (r: Vec<char>)
    requires
        off + len <= v@.len(),
    ensures
        r@ == v@.subrange(off as int, off + len),
{
    let n = v.len();
    let mut r: Vec<char> = Vec::new();
    let mut j: usize = 0;
    while j < len
        invariant
            j <= len,
            off + len <= n == v@.len(),
            r@ == v@.subrange(off as int, off + j),
        decreases len - j,
    {
        r.push(v[off + j]);
        j = j + 1;
        proof {
            assert(r@ =~= v@.subrange(off as int, off + j));
        }
    }
    r
}

/// The store's single persistent byte sequence, held here as the sequence of
/// characters that make up the log.  The surrounding process decides where
/// the content is loaded from and written back to; the engine owns the
/// content itself and edits it only through the operations below: append,
/// positional overwrite, positional read, and wholesale replacement.
pub struct LogFile {
    pub data: Vec<char>,
}

impl View for LogFile {
    type V = Seq<char>;

    open spec fn view(&self) -> Seq<char> {
        self.data@
    }
}

impl LogFile {
    /// An empty log.
    pub fn new() -> (r: LogFile)
        ensures
            r@ == Seq::<char>::empty(),
    {
        LogFile { data: Vec::new() }
    }

    /// A log holding exactly the given content.
    pub fn from_content(content: Vec<char>) -> (r: LogFile)
        ensures
            r@ == content@,
    {
        LogFile { data: content }
    }

    /// The current size of the log.
    pub fn size(&self) -> (n: usize)
        ensures
            n == self@.len(),
    {
        self.data.len()
    }

    /// Writes `rec` at the current end of the log and returns the offset the
    /// write began at.
    pub fn append(&mut self, rec: &Vec<char>) -> (off: usize)
        ensures
            final(self)@ == old(self)@ + rec@,
            off == old(self)@.len(),
            old(self)@.len() + rec@.len() <= usize::MAX,
    {
        let off = self.data.len();
        let mut j: usize = 0;
        while j < rec.len()
            invariant
                j <= rec.len(),
                self.data@ == old(self)@ + rec@.take(j as int),
            decreases rec.len() - j,
        {
            self.data.push(rec[j]);
            j = j + 1;
        }
        proof {
            assert(self.data@ =~= old(self)@ + rec@);
        }
        let total = self.data.len();
        proof {
            assert(total == old(self)@.len() + rec@.len());
        }
        off
    }

    /// Positional overwrite of an existing byte range; nothing after the
    /// range moves.
    pub fn write_at(&mut self, off: usize, rec: &Vec<char>)
        requires
            off + rec@.len() <= old(self)@.len(),
        ensures
            final(self)@.len() == old(self)@.len(),
            final(self)@ == old(self)@.take(off as int) + rec@ + old(self)@.skip(off + rec@.len()),
    {
        let n = self.data.len();
        let mut j: usize = 0;
        while j < rec.len()
            invariant
                j <= rec.len(),
                off + rec@.len() <= n == old(self)@.len(),
                self.data@.len() == old(self)@.len(),
                forall|i: int|
                    0 <= i < self.data@.len() && !(off <= i < off + j) ==> self.data@[i] == old(
                        self,
                    )@[i],
                forall|i: int| off <= i < off + j ==> self.data@[i] == rec@[i - off],
            decreases rec.len() - j,
        {
            self.data[off + j] = rec[j];
            j = j + 1;
        }
        proof {
            assert(self.data@ =~= old(self)@.take(off as int) + rec@ + old(self)@.skip(
                off + rec@.len(),
            ));
        }
    }

    /// Positional read of exactly `len` characters starting at `off`.
    pub fn read_at(&self, off: usize, len: usize) -> (r: Vec<char>)
        requires
            off + len <= self@.len(),
        ensures
            r@ == self@.subrange(off as int, off + len),
    {
        let n = self.data.len();
        let mut r: Vec<char> = Vec::new();
        let mut j: usize = 0;
        while j < len
            invariant
                j <= len,
                off + len <= n == self@.len(),
                r@ == self@.subrange(off as int, off + j),
            decreases len - j,
        {
            let c = self.data[off + j];
            r.push(c);
            j = j + 1;
            proof {
                assert(r@ =~= self@.subrange(off as int, off + j));
            }
        }
        r
    }

    /// Atomically installs `content` as the whole log; the model of renaming
    /// a freshly written file onto the log's fixed path.
    pub fn replace(&mut self, content: Vec<char>)
        ensures
            final(self)@ == content@,
    {
        self.data = content;
    }

    /// Gives the log's content up, for the caller to persist.
    pub fn into_content(self) -> (r: Vec<char>)
        ensures
            r@ == self@,
    {
        self.data
    }
}

} // verus!
