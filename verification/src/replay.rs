use crate::codec::{lemma_decode_sound, lemma_encoded_line, spec_decode, CmdV};
use crate::kv_index::OffsetLen;
use vstd::prelude::*;

verus! {

/// One record as placed in the log: its range and the command it decodes to.
pub struct LineV {
    pub loc: OffsetLen,
    pub cmd: CmdV,
}

/// What one replayed record does to the location map: a set binds its key to
/// the record's range, a remove drops the key (a no-op when the key is
/// absent, since the log may hold a remove whose set lies before the store's
/// recorded history), a get changes nothing.
pub open spec fn apply_cmd(
    m: Map<Seq<char>, OffsetLen>,
    loc: OffsetLen,
    c: CmdV,
) -> Map<Seq<char>, OffsetLen> {
    match c {
        CmdV::SetV { key, .. } => m.insert(key, loc),
        CmdV::RmV { key } => m.remove(key),
        CmdV::GetV { .. } => m,
    }
}

/// Replays a sequence of records over a starting map.
pub open spec fn run_lines(m: Map<Seq<char>, OffsetLen>, lines: Seq<LineV>) -> Map<
    Seq<char>,
    OffsetLen,
>
    decreases lines.len(),
{
    if lines.len() == 0 {
        m
    } else {
        run_lines(apply_cmd(m, lines[0].loc, lines[0].cmd), lines.skip(1))
    }
}

/// The record's range lies inside the content and decodes to its command.
pub open spec fn line_ok(content: Seq<char>, l: LineV) -> bool {
    &&& l.loc.offset + l.loc.len <= content.len()
    &&& l.loc.len >= 1
    &&& spec_decode(content.subrange(l.loc.offset as int, l.loc.offset + l.loc.len)) == Some(l.cmd)
}

/// The lines tile `content` exactly: starting at zero, each record directly
/// after the one before, ending at the content's end, every range decoding
/// to its command.
pub open spec fn lines_wf(content: Seq<char>, lines: Seq<LineV>) -> bool {
    &&& forall|j: int| 0 <= j < lines.len() ==> line_ok(content, #[trigger] lines[j])
    &&& (lines.len() == 0 ==> content.len() == 0)
    &&& (lines.len() > 0 ==> lines[0].loc.offset == 0 && lines.last().loc.offset
        + lines.last().loc.len == content.len())
    &&& forall|j: int|
        1 <= j < lines.len() ==> (#[trigger] lines[j]).loc.offset == lines[j - 1].loc.offset
            + lines[j - 1].loc.len
}

/// This line is a set of `k` recorded at `loc`.
pub open spec fn sets_key(l: LineV, k: Seq<char>, loc: OffsetLen) -> bool {
    l.loc == loc && match l.cmd {
        CmdV::SetV { key, .. } => key == k,
        _ => false,
    }
}

/// Appending one record to a replayed sequence applies it last.
pub proof fn lemma_run_lines_push(m: Map<Seq<char>, OffsetLen>, lines: Seq<LineV>, l: LineV)
    ensures
        run_lines(m, lines.push(l)) == apply_cmd(run_lines(m, lines), l.loc, l.cmd),
    decreases lines.len(),
{
    let p = lines.push(l);
    if lines.len() == 0 {
        assert(p[0] == l);
        assert(run_lines(m, p) == run_lines(apply_cmd(m, l.loc, l.cmd), p.skip(1)));
        assert(p.skip(1) =~= Seq::<LineV>::empty());
        assert(run_lines(apply_cmd(m, l.loc, l.cmd), Seq::<LineV>::empty()) == apply_cmd(
            m,
            l.loc,
            l.cmd,
        ));
        assert(run_lines(m, lines) == m);
    } else {
        let m1 = apply_cmd(m, lines[0].loc, lines[0].cmd);
        lemma_run_lines_push(m1, lines.skip(1), l);
        assert(p[0] == lines[0]);
        assert(run_lines(m, p) == run_lines(m1, p.skip(1)));
        assert(p.skip(1) =~= lines.skip(1).push(l));
        assert(run_lines(m, lines) == run_lines(m1, lines.skip(1)));
    }
}

/// Every key of the final map either kept its starting binding or was bound
/// by a set record that is its last writer.
pub proof fn lemma_run_lines_entry(m0: Map<Seq<char>, OffsetLen>, lines: Seq<LineV>, k: Seq<char>)
    requires
        run_lines(m0, lines).contains_key(k),
    ensures
        (m0.contains_key(k) && run_lines(m0, lines)[k] == m0[k]) || exists|j: int|
            0 <= j < lines.len() && sets_key(#[trigger] lines[j], k, run_lines(m0, lines)[k]),
    decreases lines.len(),
{
    if lines.len() == 0 {
    } else {
        let m1 = apply_cmd(m0, lines[0].loc, lines[0].cmd);
        let mfin = run_lines(m0, lines);
        assert(run_lines(m1, lines.skip(1)) == mfin);
        lemma_run_lines_entry(m1, lines.skip(1), k);
        if m1.contains_key(k) && mfin[k] == m1[k] {
            match lines[0].cmd {
                CmdV::SetV { key, value } => {
                    if key == k {
                        assert(sets_key(lines[0], k, mfin[k]));
                    }
                },
                CmdV::RmV { key } => {
                    assert(key != k);
                },
                CmdV::GetV { .. } => {},
            }
        } else {
            let j = choose|j: int|
                0 <= j < lines.skip(1).len() && sets_key(#[trigger] lines.skip(1)[j], k, mfin[k]);
            assert(lines.skip(1)[j] == lines[j + 1]);
            assert(sets_key(lines[j + 1], k, mfin[k]));
        }
    }
}

/// Replacing one set record by another set of the same key at the same
/// range leaves the replayed map unchanged.
pub proof fn lemma_run_lines_update_set(
    m: Map<Seq<char>, OffsetLen>,
    lines1: Seq<LineV>,
    lines2: Seq<LineV>,
    j: int,
    k: Seq<char>,
)
    requires
        lines1.len() == lines2.len(),
        0 <= j < lines1.len(),
        forall|i: int| 0 <= i < lines1.len() && i != j ==> lines1[i] == #[trigger] lines2[i],
        sets_key(lines1[j], k, lines1[j].loc),
        sets_key(lines2[j], k, lines1[j].loc),
    ensures
        run_lines(m, lines1) == run_lines(m, lines2),
    decreases lines1.len(),
{
    if j == 0 {
        let m1 = apply_cmd(m, lines1[0].loc, lines1[0].cmd);
        let m2 = apply_cmd(m, lines2[0].loc, lines2[0].cmd);
        assert(m1 == m2);
        assert(lines1.skip(1) =~= lines2.skip(1));
    } else {
        assert(lines1[0] == lines2[0]);
        assert(lines1.skip(1)[j - 1] == lines1[j]);
        assert(lines2.skip(1)[j - 1] == lines2[j]);
        lemma_run_lines_update_set(
            apply_cmd(m, lines1[0].loc, lines1[0].cmd),
            lines1.skip(1),
            lines2.skip(1),
            j - 1,
            k,
        );
    }
}

/// In a tiling, earlier records lie wholly before later ones.
pub proof fn lemma_lines_ordered(content: Seq<char>, lines: Seq<LineV>, i: int, j: int)
    requires
        lines_wf(content, lines),
        0 <= i < j < lines.len(),
    ensures
        lines[i].loc.offset + lines[i].loc.len <= lines[j].loc.offset,
    decreases j - i,
{
    if j == i + 1 {
    } else {
        lemma_lines_ordered(content, lines, i, j - 1);
        assert(line_ok(content, lines[j - 1]));
    }
}

/// The length of the first line of `s`, terminator included.
pub open spec fn next_line_len(s: Seq<char>) -> Option<int>
    decreases s.len(),
{
    if s.len() == 0 {
        None
    } else if s[0] == '\n' {
        Some(1)
    } else {
        match next_line_len(s.skip(1)) {
            Some(n) => Some(n + 1),
            None => None,
        }
    }
}

/// What a first-line length means: the first newline stands at its end.
pub proof fn lemma_next_line_len_bounds(s: Seq<char>)
    ensures
        match next_line_len(s) {
            Some(l) => 1 <= l <= s.len() && s[l - 1] == '\n' && (forall|i: int|
                0 <= i < l - 1 ==> s[i] != '\n'),
            None => forall|i: int| 0 <= i < s.len() ==> s[i] != '\n',
        },
    decreases s.len(),
{
    if s.len() == 0 {
    } else if s[0] == '\n' {
    } else {
        lemma_next_line_len_bounds(s.skip(1));
        match next_line_len(s.skip(1)) {
            Some(l) => {
                assert(s.skip(1)[l - 1] == s[l]);
                assert(forall|i: int| 1 <= i < l ==> s[i] == s.skip(1)[i - 1]);
            },
            None => {
                assert(forall|i: int| 1 <= i < s.len() ==> s[i] == s.skip(1)[i - 1]);
            },
        }
    }
}

/// A newline at position `l - 1` and none before it makes `l` the first
/// line's length.
pub proof fn lemma_next_line_len_of(s: Seq<char>, l: int)
    requires
        1 <= l <= s.len(),
        s[l - 1] == '\n',
        forall|i: int| 0 <= i < l - 1 ==> s[i] != '\n',
    ensures
        next_line_len(s) == Some(l),
    decreases l,
{
    if l == 1 {
    } else {
        assert(forall|i: int| 0 <= i < l - 2 ==> s.skip(1)[i] == s[i + 1]);
        assert(s.skip(1)[l - 2] == s[l - 1]);
        lemma_next_line_len_of(s.skip(1), l - 1);
    }
}

/// Replay of the content from `pos` on: reads one newline-terminated record
/// at a time, decodes it, applies it; fails on a record that does not decode
/// or on a trailing fragment with no terminator.
pub open spec fn replay_suf(content: Seq<char>, pos: int, m: Map<Seq<char>, OffsetLen>) -> Option<
    Map<Seq<char>, OffsetLen>,
>
    decreases content.len() - pos,
    when 0 <= pos <= content.len()
    via replay_suf_dec
{
    if pos == content.len() {
        Some(m)
    } else {
        match next_line_len(content.skip(pos)) {
            None => None,
            Some(len) => match spec_decode(content.subrange(pos, pos + len)) {
                None => None,
                Some(c) => replay_suf(
                    content,
                    pos + len,
                    apply_cmd(m, OffsetLen { offset: pos as usize, len: len as usize }, c),
                ),
            },
        }
    }
}

#[via_fn]
proof fn replay_suf_dec(content: Seq<char>, pos: int, m: Map<Seq<char>, OffsetLen>) {
    if 0 <= pos < content.len() {
        lemma_next_line_len_bounds(content.skip(pos));
    }
}

/// Replay of a whole log, as performed at open time.
pub open spec fn replay(content: Seq<char>) -> Option<Map<Seq<char>, OffsetLen>> {
    replay_suf(content, 0, Map::empty())
}

/// The starting offset of line `j`, or the content's end once all lines are
/// consumed.
pub open spec fn line_start(content: Seq<char>, lines: Seq<LineV>, j: int) -> int {
    if j == lines.len() {
        content.len() as int
    } else {
        lines[j].loc.offset as int
    }
}

/// A tiling replays deterministically: from any line boundary on, replay
/// succeeds and folds the remaining records.
pub proof fn lemma_lines_replay(
    content: Seq<char>,
    lines: Seq<LineV>,
    j: int,
    m: Map<Seq<char>, OffsetLen>,
)
    requires
        lines_wf(content, lines),
        0 <= j <= lines.len(),
    ensures
        replay_suf(content, line_start(content, lines, j), m) == Some(
            run_lines(m, lines.skip(j)),
        ),
    decreases lines.len() - j,
{
    let pos = line_start(content, lines, j);
    if j == lines.len() {
        assert(lines.skip(j) =~= Seq::<LineV>::empty());
        if lines.len() == 0 {
            assert(pos == content.len());
        }
    } else {
        let loc = lines[j].loc;
        let cmd = lines[j].cmd;
        assert(line_ok(content, lines[j]));
        let slice = content.subrange(loc.offset as int, loc.offset + loc.len);
        lemma_decode_sound(slice, cmd);
        lemma_encoded_line(cmd);
        let suf = content.skip(pos);
        assert(forall|i: int| 0 <= i < loc.len ==> suf[i] == slice[i]);
        assert(suf[loc.len - 1] == '\n');
        assert(forall|i: int| 0 <= i < loc.len - 1 ==> suf[i] != '\n');
        lemma_next_line_len_of(suf, loc.len as int);
        assert(content.subrange(pos, pos + loc.len) =~= slice);
        let built = OffsetLen { offset: pos as usize, len: loc.len as usize };
        assert(built == loc);
        let m1 = apply_cmd(m, loc, cmd);
        assert(replay_suf(content, pos, m) == replay_suf(content, pos + loc.len, m1));
        if j + 1 == lines.len() {
            assert(lines.last() == lines[j]);
            assert(pos + loc.len == content.len());
        } else {
            assert(lines[j + 1].loc.offset == loc.offset + loc.len);
        }
        lemma_lines_replay(content, lines, j + 1, m1);
        assert(lines.skip(j)[0] == lines[j]);
        assert(lines.skip(j).skip(1) =~= lines.skip(j + 1));
        assert(run_lines(m, lines.skip(j)) == run_lines(m1, lines.skip(j + 1)));
    }
}

} // verus!
