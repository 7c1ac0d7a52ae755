//! A sequential, resumable reader that groups the lines of a text into chunks.
use vstd::prelude::*;
use vstd::string::StringExecFns;

verus! {

/// A character of Unicode's `White_Space` property, the set that
/// `char::is_whitespace` tests.
pub open spec fn is_white_space(c: char) -> bool {
    ('\u{9}' <= c && c <= '\u{d}') || c == ' ' || c == '\u{85}' || c == '\u{a0}' || c
        == '\u{1680}' || ('\u{2000}' <= c && c <= '\u{200a}') || c == '\u{2028}' || c
        == '\u{2029}' || c == '\u{202f}' || c == '\u{205f}' || c == '\u{3000}'
}

/// The text without its trailing whitespace.
pub open spec fn trim_end_of(s: Seq<char>) -> Seq<char>
    decreases s.len(),
{
    if s.len() > 0 && is_white_space(s.last()) {
        trim_end_of(s.drop_last())
    } else {
        s
    }
}

/// The text without its leading whitespace.
pub open spec fn trim_start_of(s: Seq<char>) -> Seq<char>
    decreases s.len(),
{
    if s.len() > 0 && is_white_space(s[0]) {
        trim_start_of(s.skip(1))
    } else {
        s
    }
}

/// Relies on `str::trim_end`: the line with its trailing whitespace removed.
#[verifier::external_body]
fn trim_end_line(s: &str) -> (r: String)
    ensures
        r@ == trim_end_of(s@),
{
    s.trim_end().to_string()
}

/// The lines of a text as the reader sees them: each without trailing whitespace.
pub open spec fn trimmed_lines(raw: Seq<String>) -> Seq<Seq<char>> {
    raw.map_values(|l: String| trim_end_of(l@))
}

/// The number of lines that one read takes from `n` remaining lines.
pub open spec fn group_len(n: nat, k: nat) -> nat {
    if n < k { n } else { k }
}

/// Every line of the group is empty.
pub open spec fn all_blank(g: Seq<Seq<char>>) -> bool {
    forall|i: int| 0 <= i < g.len() ==> (#[trigger] g[i]).len() == 0
}

/// The lines of a group joined by newline characters.
pub open spec fn join_lines(g: Seq<Seq<char>>) -> Seq<char>
    decreases g.len(),
{
    if g.len() == 0 {
        Seq::empty()
    } else if g.len() == 1 {
        g[0]
    } else {
        join_lines(g.drop_last()) + seq!['\n'] + g.last()
    }
}

/// The chunk texts of a sequence of lines: greedy groups of `k` lines (the
/// last one possibly shorter), each joined by newlines, blank groups left out.
pub open spec fn chunk_texts(ls: Seq<Seq<char>>, k: nat) -> Seq<Seq<char>>
    decreases ls.len(),
{
    if ls.len() == 0 || k == 0 {
        Seq::empty()
    } else {
        let n = group_len(ls.len(), k);
        let rest = chunk_texts(ls.skip(n as int), k);
        if all_blank(ls.take(n as int)) {
            rest
        } else {
            seq![join_lines(ls.take(n as int))] + rest
        }
    }
}

/// One call of the reader on the remaining lines `ls`: the number of read
/// attempts it makes, the chunk it returns (`None` at the end of the lines),
/// and the number of lines it consumes.
pub open spec fn next_chunk(ls: Seq<Seq<char>>, k: nat) -> (nat, Option<Seq<char>>, nat)
    decreases ls.len(),
{
    if ls.len() == 0 || k == 0 {
        (1, None, 0)
    } else {
        let n = group_len(ls.len(), k);
        if all_blank(ls.take(n as int)) {
            let r = next_chunk(ls.skip(n as int), k);
            (r.0 + 1, r.1, r.2 + n)
        } else {
            (1, Some(join_lines(ls.take(n as int))), n)
        }
    }
}

/// The character sequences of a sequence of strings.
pub open spec fn string_views(v: Seq<String>) -> Seq<Seq<char>> {
    v.map_values(|l: String| l@)
}

pub open spec fn opt_view(o: Option<String>) -> Option<Seq<char>> {
    match o {
        Some(s) => Some(s@),
        None => None,
    }
}

/// A call of the reader returns the first chunk text that remains, and leaves
/// the others: so successive calls return exactly `chunk_texts` of the lines.
pub proof fn lemma_next_chunk_is_first_text(ls: Seq<Seq<char>>, k: nat)
    ensures
        next_chunk(ls, k).2 <= ls.len(),
        next_chunk(ls, k).1 matches Some(t) ==> chunk_texts(ls, k) == seq![t] + chunk_texts(
            ls.skip(next_chunk(ls, k).2 as int),
            k,
        ),
        next_chunk(ls, k).1 is None ==> chunk_texts(ls, k) == Seq::<Seq<char>>::empty()
            && chunk_texts(ls.skip(next_chunk(ls, k).2 as int), k) == Seq::<Seq<char>>::empty(),
    decreases ls.len(),
{
    if ls.len() == 0 || k == 0 {
        assert(ls.skip(0) =~= ls);
    } else {
        let n = group_len(ls.len(), k);
        let rest = ls.skip(n as int);
        if all_blank(ls.take(n as int)) {
            lemma_next_chunk_is_first_text(rest, k);
            let m = next_chunk(rest, k).2;
            assert(rest.skip(m as int) =~= ls.skip((n + m) as int));
        }
    }
}

/// Resuming after `skip` lines yields the chunks of the text without its
/// first `skip` lines: a reader opened on `raw` with `skip` lines skipped has
/// the same chunk texts ahead of it as a reader opened on `raw.skip(skip)`
/// with none skipped.
pub proof fn lemma_resume_is_skip(raw: Seq<String>, skip: nat, k: nat)
    requires
        skip <= raw.len(),
    ensures
        chunk_texts(trimmed_lines(raw).skip(skip as int), k) == chunk_texts(
            trimmed_lines(raw.skip(skip as int)).skip(0),
            k,
        ),
{
    assert(trimmed_lines(raw).skip(skip as int) =~= trimmed_lines(raw.skip(skip as int)).skip(0));
}

/// A numbered chunk of text: its 1-based sequence number, the reader's read
/// attempts when it was produced, and its text.
#[derive(Debug)]
pub struct Chunk {
    pub sequence: usize,
    pub resume_offset: usize,
    pub text: String,
}

/// Reads the lines of a text in chunks of `chunk_size` lines, after skipping
/// a prefix of lines that an earlier run has already consumed.
pub struct LazyFileReader {
    lines: Vec<String>,
    position: usize,
    chunk_size: usize,
    call_count: usize,
    read_count: usize,
    opened: Ghost<Seq<Seq<char>>>,
    emitted: Ghost<Seq<Seq<char>>>,
}

impl LazyFileReader {
    /// The lines that remain to be read, trimmed.
    pub closed spec fn pending(&self) -> Seq<Seq<char>> {
        trimmed_lines(self.lines@).skip(self.position as int)
    }

    pub closed spec fn spec_chunk_size(&self) -> nat {
        self.chunk_size as nat
    }

    pub closed spec fn spec_call_count(&self) -> nat {
        self.call_count as nat
    }

    pub closed spec fn spec_read_count(&self) -> nat {
        self.read_count as nat
    }

    /// The room that the counters have left before they could overflow.
    pub closed spec fn headroom(&self) -> int {
        usize::MAX - self.call_count - (self.lines.len() - self.position) - self.read_count
    }

    /// The lines that were pending when the reader was opened.
    pub closed spec fn opened(&self) -> Seq<Seq<char>> {
        self.opened@
    }

    /// The chunk texts returned so far, in order.
    pub closed spec fn emitted(&self) -> Seq<Seq<char>> {
        self.emitted@
    }

    pub closed spec fn wf(&self) -> bool {
        &&& self.position <= self.lines.len()
        &&& self.emitted@ + chunk_texts(self.pending(), self.chunk_size as nat) == chunk_texts(
            self.opened@,
            self.chunk_size as nat,
        )
    }

    /// Opens a reader on `lines`, skipping the first `skip_lines` of them
    /// (all of them, if there are fewer).
    pub fn new(lines: Vec<String>, chunk_size: usize, skip_lines: usize) -> (r: Self)
        ensures
            r.wf(),
            r.pending() == trimmed_lines(lines@).skip(
                if skip_lines < lines.len() { skip_lines as int } else { lines.len() as int },
            ),
            r.spec_chunk_size() == chunk_size,
            r.spec_call_count() == 0,
            r.spec_read_count() == 0,
            r.opened() == r.pending(),
            r.emitted() == Seq::<Seq<char>>::empty(),
            r.headroom() == usize::MAX - (lines.len() - if skip_lines < lines.len() {
                skip_lines as int
            } else {
                lines.len() as int
            }),
    {
        let position = if skip_lines < lines.len() { skip_lines } else { lines.len() };
        let ghost opened = trimmed_lines(lines@).skip(position as int);
        let r = LazyFileReader {
            lines,
            position,
            chunk_size,
            call_count: 0,
            read_count: 0,
            opened: Ghost(opened),
            emitted: Ghost(Seq::empty()),
        };
        assert(r.emitted@ + chunk_texts(r.pending(), chunk_size as nat) =~= chunk_texts(
            opened,
            chunk_size as nat,
        ));
        r
    }

    /// Returns the next non-blank chunk, or `None` once the lines are used up.
    /// Blank groups are consumed and counted as read attempts.
    pub fn read_next_chunk(&mut self) -> (r: Option<String>)
        requires
            old(self).wf(),
            old(self).headroom() >= 2,
        ensures
            final(self).wf(),
            opt_view(r) == next_chunk(old(self).pending(), old(self).spec_chunk_size()).1,
            final(self).pending() == old(self).pending().skip(
                next_chunk(old(self).pending(), old(self).spec_chunk_size()).2 as int,
            ),
            final(self).spec_read_count() == old(self).spec_read_count() + next_chunk(
                old(self).pending(),
                old(self).spec_chunk_size(),
            ).0,
            final(self).spec_call_count() == old(self).spec_call_count() + 1,
            final(self).spec_chunk_size() == old(self).spec_chunk_size(),
            final(self).headroom() == old(self).headroom() - 1 - next_chunk(
                old(self).pending(),
                old(self).spec_chunk_size(),
            ).0 + next_chunk(old(self).pending(), old(self).spec_chunk_size()).2,
            final(self).opened() == old(self).opened(),
            final(self).emitted() == match r {
                Some(t) => old(self).emitted().push(t@),
                None => old(self).emitted(),
            },
            r is None ==> final(self).emitted() == chunk_texts(
                final(self).opened(),
                final(self).spec_chunk_size(),
            ),
    {
        let ghost start = self.pending();
        let ghost k = self.chunk_size as nat;
        let ghost total = next_chunk(start, k);
        let ghost r0 = self.read_count as int;
        let ghost p0 = self.position as int;
        let ghost h0 = old(self).headroom();
        let ghost lines = trimmed_lines(self.lines@);
        self.call_count = self.call_count + 1;
        loop
            invariant
                self.wf(),
                self.chunk_size == k,
                k == old(self).chunk_size,
                lines == trimmed_lines(self.lines@),
                self.pending() == lines.skip(self.position as int),
                p0 <= self.position,
                next_chunk(self.pending(), k).1 == total.1,
                self.read_count + next_chunk(self.pending(), k).0 == r0 + total.0,
                self.position + next_chunk(self.pending(), k).2 == p0 + total.2,
                self.headroom() >= 1,
                self.headroom() == h0 - 1 - (self.read_count - r0) + (self.position - p0),
                self.call_count == old(self).call_count + 1,
                self.lines == old(self).lines,
                self.emitted == old(self).emitted,
                self.opened == old(self).opened,
                start == old(self).pending(),
                start == lines.skip(p0),
                total == next_chunk(start, k),
                p0 == old(self).position,
                r0 == old(self).read_count,
                h0 == old(self).headroom(),
            decreases self.lines.len() - self.position,
        {
            let ghost ls = self.pending();
            self.read_count = self.read_count + 1;
            let group_start = self.position;
            let group = self.take_group(group_start);
            let n = group.len();
            self.position = group_start + n;
            let ghost g = string_views(group@);
            assert(ls.len() == lines.len() - group_start);
            assert(lines.skip(self.position as int) =~= ls.skip(n as int));
            assert(start.skip(self.position - p0) =~= lines.skip(self.position as int));
            if group.len() == 0 {
                proof {
                    lemma_next_chunk_is_first_text(ls, k);
                    assert(ls.skip(0) =~= ls);
                    assert(self.emitted@ + chunk_texts(self.pending(), k) =~= self.emitted@);
                }
                return None;
            }
            assert(g =~= ls.take(n as int));
            assert(n == group_len(ls.len(), k));
            if !all_blank_lines(&group) {
                let text = join_group(&group);
                proof {
                    lemma_next_chunk_is_first_text(ls, k);
                    let e = self.emitted@;
                    self.emitted@ = e.push(text@);
                    assert(e.push(text@) + chunk_texts(self.pending(), k) =~= e + (seq![text@]
                        + chunk_texts(self.pending(), k)));
                }
                return Some(text);
            }
        }
    }

    /// The next group of at most `chunk_size` lines from `start` on, trimmed.
    fn take_group(&self, start: usize) -> (group: Vec<String>)
        requires
            start <= self.lines.len(),
        ensures
            group.len() == group_len((self.lines.len() - start) as nat, self.chunk_size as nat),
            string_views(group@) == trimmed_lines(self.lines@).subrange(
                start as int,
                start + group.len(),
            ),
    {
        let ghost lines = trimmed_lines(self.lines@);
        let mut group: Vec<String> = Vec::new();
        let mut pos = start;
        while pos - start < self.chunk_size && pos < self.lines.len()
            invariant
                start <= pos <= self.lines.len(),
                pos - start <= self.chunk_size,
                group.len() == pos - start,
                lines == trimmed_lines(self.lines@),
                string_views(group@) == lines.subrange(start as int, pos as int),
            decreases self.lines.len() - pos,
        {
            let line = trim_end_line(self.lines[pos].as_str());
            let ghost before = group@;
            group.push(line);
            assert(lines[pos as int] == trim_end_of(self.lines@[pos as int]@));
            assert(group@ =~= before.push(line));
            assert(string_views(group@) =~= lines.subrange(start as int, pos + 1));
            pos = pos + 1;
        }
        group
    }

    /// Whether the counters have room for another call.
    pub fn can_read(&self) -> (r: bool)
        requires
            self.wf(),
        ensures
            r == (self.headroom() >= 2),
    {
        let remaining = self.lines.len() - self.position;
        self.call_count <= usize::MAX - 2 && remaining <= usize::MAX - 2 - self.call_count
            && self.read_count <= usize::MAX - 2 - self.call_count - remaining
    }

    /// The next chunk with its sequence number and resume offset, or `None`
    /// once the lines are used up.
    pub fn pull(&mut self) -> (r: Option<Chunk>)
        requires
            old(self).wf(),
            old(self).headroom() >= 2,
        ensures
            final(self).wf(),
            match r {
                Some(c) => next_chunk(old(self).pending(), old(self).spec_chunk_size()).1 == Some(
                    c.text@,
                ) && c.sequence == final(self).spec_call_count() && c.resume_offset
                    == final(self).spec_read_count(),
                None => next_chunk(old(self).pending(), old(self).spec_chunk_size()).1 is None,
            },
            final(self).pending() == old(self).pending().skip(
                next_chunk(old(self).pending(), old(self).spec_chunk_size()).2 as int,
            ),
            final(self).spec_read_count() == old(self).spec_read_count() + next_chunk(
                old(self).pending(),
                old(self).spec_chunk_size(),
            ).0,
            final(self).spec_call_count() == old(self).spec_call_count() + 1,
            final(self).spec_chunk_size() == old(self).spec_chunk_size(),
            final(self).headroom() == old(self).headroom() - 1 - next_chunk(
                old(self).pending(),
                old(self).spec_chunk_size(),
            ).0 + next_chunk(old(self).pending(), old(self).spec_chunk_size()).2,
            final(self).opened() == old(self).opened(),
            final(self).emitted() == match r {
                Some(c) => old(self).emitted().push(c.text@),
                None => old(self).emitted(),
            },
            r is None ==> final(self).emitted() == chunk_texts(
                final(self).opened(),
                final(self).spec_chunk_size(),
            ),
    {
        match self.read_next_chunk() {
            Some(text) => Some(
                Chunk { sequence: self.call_count, resume_offset: self.read_count, text },
            ),
            None => None,
        }
    }

    pub fn get_call_count(&self) -> (r: usize)
        ensures
            r == self.spec_call_count(),
    {
        self.call_count
    }

    pub fn get_read_count(&self) -> (r: usize)
        ensures
            r == self.spec_read_count(),
    {
        self.read_count
    }
}

/// Every line of the group is empty.
fn all_blank_lines(group: &Vec<String>) -> (r: bool)
    ensures
        r == all_blank(string_views(group@)),
{
    let ghost g = string_views(group@);
    let mut i: usize = 0;
    while i < group.len()
        invariant
            i <= group.len(),
            g == string_views(group@),
            forall|j: int| 0 <= j < i ==> (#[trigger] g[j]).len() == 0,
        decreases group.len() - i,
    {
        if !group[i].as_str().is_empty() {
            assert(g[i as int].len() != 0);
            return false;
        }
        i = i + 1;
    }
    true
}

/// The lines of the group joined by newline characters.
fn join_group(group: &Vec<String>) -> (r: String)
    ensures
        r@ == join_lines(string_views(group@)),
{
    let ghost g = string_views(group@);
    if group.len() == 0 {
        return String::new();
    }
    let mut text = group[0].clone();
    let mut i: usize = 1;
    assert(g.take(1).drop_last() =~= Seq::<Seq<char>>::empty());
    while i < group.len()
        invariant
            1 <= i <= group.len(),
            g == string_views(group@),
            text@ == join_lines(g.take(i as int)),
        decreases group.len() - i,
    {
        proof {
            reveal_strlit("\n");
        }
        text.append("\n");
        text.append(group[i].as_str());
        assert(g.take(i as int + 1).drop_last() =~= g.take(i as int));
        i = i + 1;
    }
    assert(g.take(group.len() as int) =~= g);
    text
}

} // verus!
