//! The framing of a snapshot: one record per line.
//!
//! A snapshot is a byte string. A line ends at a line feed, or at the end
//! of the data; a carriage return just before the line feed belongs to the
//! line ending. Lines that hold nothing but white space carry no record.

use vstd::prelude::*;

verus! {

/// The byte that ends a line.
pub const LINE_FEED: u8 = 0x0A;

/// The byte that may stand before a line feed.
pub const CARRIAGE_RETURN: u8 = 0x0D;

/// How many bytes the white-space character at the start of `s` takes in
/// UTF-8, or 0 if `s` does not start with one. The white-space characters
/// are those of Unicode's `White_Space` property.
pub open spec fn space_width(s: Seq<u8>) -> int {
    if s.len() >= 1 && (0x09 <= s[0] <= 0x0D || s[0] == 0x20) {
        1
    } else if s.len() >= 2 && s[0] == 0xC2 && (s[1] == 0x85 || s[1] == 0xA0) {
        2
    } else if s.len() >= 3 && s[0] == 0xE1 && s[1] == 0x9A && s[2] == 0x80 {
        3
    } else if s.len() >= 3 && s[0] == 0xE2 && s[1] == 0x80 && (0x80 <= s[2] <= 0x8A || s[2] == 0xA8
        || s[2] == 0xA9 || s[2] == 0xAF) {
        3
    } else if s.len() >= 3 && s[0] == 0xE2 && s[1] == 0x81 && s[2] == 0x9F {
        3
    } else if s.len() >= 3 && s[0] == 0xE3 && s[1] == 0x80 && s[2] == 0x80 {
        3
    } else {
        0
    }
}

/// The line holds nothing but white space.
pub open spec fn is_blank(s: Seq<u8>) -> bool
    decreases s.len(),
{
    if s.len() == 0 {
        true
    } else if space_width(s) == 0 {
        false
    } else {
        is_blank(s.skip(space_width(s)))
    }
}

/// The line carries a record.
pub open spec fn carries_record() -> spec_fn(Seq<u8>) -> bool {
    |s: Seq<u8>| !is_blank(s)
}

/// The place of the first line feed at or after `from`, or the length of
/// the data if there is none.
pub open spec fn line_end(data: Seq<u8>, from: int) -> int
    decreases data.len() - from,
{
    if from < 0 || from >= data.len() {
        data.len() as int
    } else if data[from] == LINE_FEED {
        from
    } else {
        line_end(data, from + 1)
    }
}

/// The line that runs from `from` to `end`, where `at_feed` says that a line
/// feed stands at `end`: without the carriage return before that line feed.
pub open spec fn line_body(data: Seq<u8>, from: int, end: int, at_feed: bool) -> Seq<u8> {
    if at_feed && from < end && data[end - 1] == CARRIAGE_RETURN {
        data.subrange(from, end - 1)
    } else {
        data.subrange(from, end)
    }
}

/// The lines of `data` from the place `from` on.
pub open spec fn lines_from(data: Seq<u8>, from: int) -> Seq<Seq<u8>>
    decreases data.len() - from,
{
    if from < 0 || from >= data.len() {
        Seq::empty()
    } else {
        let end = line_end(data, from);
        if end >= data.len() {
            seq![line_body(data, from, end, false)]
        } else {
            proof {
                lemma_line_end(data, from);
            }
            seq![line_body(data, from, end, true)] + lines_from(data, end + 1)
        }
    }
}

/// The lines of `data`.
pub open spec fn lines_of(data: Seq<u8>) -> Seq<Seq<u8>> {
    lines_from(data, 0)
}

/// The lines of `data` that carry a record.
pub open spec fn record_lines(data: Seq<u8>) -> Seq<Seq<u8>> {
    lines_of(data).filter(carries_record())
}

/// The byte strings of a list of lines.
pub open spec fn line_views(s: Seq<Vec<u8>>) -> Seq<Seq<u8>> {
    s.map_values(|l: Vec<u8>| l@)
}

/// The end of a line lies between its start and the end of the data, no line
/// feed stands before it, and one stands at it unless it is the end of the
/// data.
pub proof fn lemma_line_end(data: Seq<u8>, from: int)
    requires
        0 <= from <= data.len(),
    ensures
        from <= line_end(data, from) <= data.len(),
        forall|k: int| from <= k < line_end(data, from) ==> data[k] != LINE_FEED,
        line_end(data, from) < data.len() ==> data[line_end(data, from)] == LINE_FEED,
    decreases data.len() - from,
{
    if from < data.len() && data[from] != LINE_FEED {
        lemma_line_end(data, from + 1);
    }
}

/// Whether the bytes of `line` from `from` on are all white space.
fn blank_from(line: &[u8], from: usize) -> (r: bool)
    requires
        from <= line.len(),
    ensures
        r == is_blank(line@.skip(from as int)),
{
    let mut i: usize = from;
    let n = line.len();
    while i < n
        invariant
            from <= i <= n,
            n == line.len(),
            is_blank(line@.skip(from as int)) == is_blank(line@.skip(i as int)),
        decreases n - i,
    {
        let ghost rest = line@.skip(i as int);
        let b0 = line[i];
        assert(rest[0] == b0);
        let mut width: usize = 0;
        if (0x09 <= b0 && b0 <= 0x0D) || b0 == 0x20 {
            width = 1;
        } else if n - i >= 2 && b0 == 0xC2 {
            let b1 = line[i + 1];
            assert(rest[1] == b1);
            if b1 == 0x85 || b1 == 0xA0 {
                width = 2;
            }
        } else if n - i >= 3 {
            let b1 = line[i + 1];
            let b2 = line[i + 2];
            assert(rest[1] == b1);
            assert(rest[2] == b2);
            if b0 == 0xE1 && b1 == 0x9A && b2 == 0x80 {
                width = 3;
            } else if b0 == 0xE2 && b1 == 0x80 && ((0x80 <= b2 && b2 <= 0x8A) || b2 == 0xA8 || b2
                == 0xA9 || b2 == 0xAF) {
                width = 3;
            } else if b0 == 0xE2 && b1 == 0x81 && b2 == 0x9F {
                width = 3;
            } else if b0 == 0xE3 && b1 == 0x80 && b2 == 0x80 {
                width = 3;
            }
        }
        assert(width == space_width(rest));
        if width == 0 {
            return false;
        }
        assert(rest.skip(width as int) =~= line@.skip(i + width));
        i += width;
    }
    assert(line@.skip(i as int).len() == 0);
    true
}

/// Whether `line` holds nothing but white space.
pub fn line_is_blank(line: &[u8]) -> (r: bool)
    ensures
        r == is_blank(line@),
{
    assert(line@.skip(0) =~= line@);
    blank_from(line, 0)
}

/// A copy of the bytes of `data` from `from` up to `to`.
fn copy_range(data: &[u8], from: usize, to: usize) -> (r: Vec<u8>)
    requires
        from <= to <= data.len(),
    ensures
        r@ == data@.subrange(from as int, to as int),
{
    let mut out: Vec<u8> = Vec::new();
    let mut i: usize = from;
    while i < to
        invariant
            from <= i <= to <= data.len(),
            out@ == data@.subrange(from as int, i as int),
        decreases to - i,
    {
        out.push(data[i]);
        assert(out@ =~= data@.subrange(from as int, i + 1));
        i += 1;
    }
    out
}

/// The lines of `data` that carry a record, in their order, each without its
/// line ending.
pub fn snapshot_lines(data: &[u8]) -> (r: Vec<Vec<u8>>)
    ensures
        line_views(r@) == record_lines(data@),
{
    let mut out: Vec<Vec<u8>> = Vec::new();
    let mut from: usize = 0;
    let n = data.len();
    let ghost mut done: Seq<Seq<u8>> = Seq::empty();
    proof {
        crate::seqs::lemma_filter_empty(carries_record());
        assert(line_views(out@) =~= Seq::<Seq<u8>>::empty());
        assert(done + lines_from(data@, 0) =~= lines_of(data@));
    }
    while from < n
        invariant
            from <= n,
            n == data.len(),
            done + lines_from(data@, from as int) == lines_of(data@),
            line_views(out@) == done.filter(carries_record()),
        decreases n - from,
    {
        let mut end: usize = from;
        while end < n && data[end] != LINE_FEED
            invariant
                from <= end <= n,
                n == data.len(),
                line_end(data@, from as int) == line_end(data@, end as int),
            decreases n - end,
        {
            end += 1;
        }
        let at_feed = end < n;
        let stop = if at_feed && from < end && data[end - 1] == CARRIAGE_RETURN {
            end - 1
        } else {
            end
        };
        let line = copy_range(data, from, stop);
        let ghost body = line_body(data@, from as int, end as int, at_feed);
        assert(line@ == body);
        let blank = line_is_blank(line.as_slice());
        proof {
            crate::seqs::lemma_filter_push(done, body, carries_record());
            let rest = if at_feed {
                lines_from(data@, end + 1)
            } else {
                Seq::<Seq<u8>>::empty()
            };
            assert(lines_from(data@, from as int) =~= seq![body] + rest);
            assert(done.push(body) + rest =~= done + lines_from(data@, from as int));
        }
        if !blank {
            let ghost before = line_views(out@);
            out.push(line);
            assert(line_views(out@) =~= before.push(body));
        }
        proof {
            done = done.push(body);
        }
        if at_feed {
            from = end + 1;
        } else {
            from = n;
        }
    }
    proof {
        assert(done + Seq::<Seq<u8>>::empty() =~= done);
    }
    out
}

/// `lines` written one after the other, each followed by a line feed.
pub open spec fn joined(lines: Seq<Seq<u8>>) -> Seq<u8>
    decreases lines.len(),
{
    if lines.len() == 0 {
        Seq::empty()
    } else {
        joined(lines.drop_last()) + lines.last().push(LINE_FEED)
    }
}

/// Writes `lines` one after the other, each followed by a line feed.
pub fn join_lines(lines: &Vec<Vec<u8>>) -> (r: Vec<u8>)
    ensures
        r@ == joined(line_views(lines@)),
{
    let mut out: Vec<u8> = Vec::new();
    let mut i: usize = 0;
    let ghost all = line_views(lines@);
    assert(all.take(0) =~= Seq::<Seq<u8>>::empty());
    while i < lines.len()
        invariant
            i <= lines.len(),
            all == line_views(lines@),
            out@ == joined(all.take(i as int)),
        decreases lines.len() - i,
    {
        let line = &lines[i];
        let ghost start = out@;
        let mut k: usize = 0;
        while k < line.len()
            invariant
                k <= line.len(),
                out@ == start + line@.take(k as int),
            decreases line.len() - k,
        {
            out.push(line[k]);
            assert(out@ =~= start + line@.take(k + 1));
            k += 1;
        }
        out.push(LINE_FEED);
        proof {
            assert(line@.take(line.len() as int) =~= line@);
            assert(all.take(i + 1).drop_last() =~= all.take(i as int));
            assert(all.take(i + 1).last() == line@);
            assert(out@ =~= start + line@.push(LINE_FEED));
        }
        i += 1;
    }
    assert(all.take(lines.len() as int) =~= all);
    out
}

/// The line can be written as it is: it holds no line feed, carries a
/// record, and does not end in a carriage return.
pub open spec fn is_plain_line(line: Seq<u8>) -> bool {
    &&& forall|i: int| 0 <= i < line.len() ==> line[i] != LINE_FEED
    &&& !is_blank(line)
    &&& (line.len() > 0 ==> line.last() != CARRIAGE_RETURN)
}

/// Where a line ends does not depend on what stands before its start.
proof fn lemma_line_end_shift(data: Seq<u8>, off: int, from: int)
    requires
        0 <= off,
        0 <= from,
        off + from <= data.len(),
    ensures
        line_end(data, off + from) == off + line_end(data.skip(off), from),
    decreases data.len() - off - from,
{
    if off + from < data.len() {
        assert(data.skip(off)[from] == data[off + from]);
        if data[off + from] != LINE_FEED {
            lemma_line_end_shift(data, off, from + 1);
        }
    }
}

/// The lines from a place on do not depend on what stands before it.
proof fn lemma_lines_shift(data: Seq<u8>, off: int, from: int)
    requires
        0 <= off,
        0 <= from,
        off + from <= data.len(),
    ensures
        lines_from(data, off + from) == lines_from(data.skip(off), from),
    decreases data.len() - off - from,
{
    let rest = data.skip(off);
    if off + from < data.len() {
        lemma_line_end_shift(data, off, from);
        lemma_line_end(data, off + from);
        lemma_line_end(rest, from);
        let end = line_end(data, off + from);
        let rend = line_end(rest, from);
        assert(end == off + rend);
        assert(rest.subrange(from, rend) =~= data.subrange(off + from, end));
        if rend > from {
            assert(rest[rend - 1] == data[end - 1]);
            assert(rest.subrange(from, rend - 1) =~= data.subrange(off + from, end - 1));
        }
        if end < data.len() {
            lemma_lines_shift(data, off, rend + 1);
        }
    }
}

/// Lines written one after the other start with the first line and its line
/// feed, and go on with the other lines.
proof fn lemma_joined_front(lines: Seq<Seq<u8>>)
    requires
        lines.len() > 0,
    ensures
        joined(lines) == lines[0].push(LINE_FEED) + joined(lines.drop_first()),
    decreases lines.len(),
{
    if lines.len() == 1 {
        assert(lines.drop_last() =~= Seq::<Seq<u8>>::empty());
        assert(lines.drop_first() =~= Seq::<Seq<u8>>::empty());
        assert(joined(lines) =~= lines[0].push(LINE_FEED) + joined(lines.drop_first()));
    } else {
        let init = lines.drop_last();
        lemma_joined_front(init);
        assert(init[0] == lines[0]);
        assert(init.drop_first() =~= lines.drop_first().drop_last());
        assert(lines.drop_first().last() == lines.last());
        assert(joined(lines) =~= lines[0].push(LINE_FEED) + joined(lines.drop_first()));
    }
}

/// What was written line by line is read line by line as it was written:
/// if every line can be written as it is, the lines of the written data that
/// carry a record are those lines.
pub proof fn lemma_written_lines_are_read(lines: Seq<Seq<u8>>)
    requires
        forall|i: int| 0 <= i < lines.len() ==> is_plain_line(#[trigger] lines[i]),
    ensures
        lines_of(joined(lines)) == lines,
        record_lines(joined(lines)) == lines,
    decreases lines.len(),
{
    if lines.len() == 0 {
        crate::seqs::lemma_filter_empty(carries_record());
        assert(lines =~= Seq::<Seq<u8>>::empty());
    } else {
        let first = lines[0];
        let rest = lines.drop_first();
        assert forall|i: int| 0 <= i < rest.len() implies is_plain_line(#[trigger] rest[i]) by {
            assert(rest[i] == lines[i + 1]);
        }
        lemma_written_lines_are_read(rest);
        lemma_joined_front(lines);
        let data = joined(lines);
        let n = first.len() as int;
        assert(data =~= first.push(LINE_FEED) + joined(rest));
        assert(data[n] == LINE_FEED);
        assert forall|i: int| 0 <= i < n implies data[i] != LINE_FEED by {
            assert(data[i] == first[i]);
        }
        lemma_line_end(data, 0);
        assert(line_end(data, 0) == n) by {
            if line_end(data, 0) < n {
            } else if line_end(data, 0) > n {
            }
        }
        if n > 0 {
            assert(data[n - 1] == first[n - 1]);
        }
        assert(data.subrange(0, n) =~= first);
        assert(line_body(data, 0, n, true) == first);
        assert(data.skip(n + 1) =~= joined(rest));
        lemma_lines_shift(data, n + 1, 0);
        assert(lines_from(data, 0) =~= seq![first] + lines_from(data, n + 1));
        assert(lines_of(data) =~= seq![first] + rest);
        assert(seq![first] + rest =~= lines);
        lemma_all_kept(lines);
    }
}

/// Lines that all carry a record are all kept.
proof fn lemma_all_kept(lines: Seq<Seq<u8>>)
    requires
        forall|i: int| 0 <= i < lines.len() ==> !is_blank(#[trigger] lines[i]),
    ensures
        lines.filter(carries_record()) == lines,
    decreases lines.len(),
{
    reveal(Seq::filter);
    if lines.len() > 0 {
        let init = lines.drop_last();
        assert forall|i: int| 0 <= i < init.len() implies !is_blank(#[trigger] init[i]) by {
            assert(init[i] == lines[i]);
        }
        lemma_all_kept(init);
        assert(carries_record()(lines.last()));
        assert(init.push(lines.last()) =~= lines);
    } else {
        assert(lines =~= Seq::<Seq<u8>>::empty());
    }
}

} // verus!
