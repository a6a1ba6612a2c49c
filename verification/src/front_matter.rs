//! The metadata block at the top of an article document.
//!
//! A document opens with a fenced metadata block: a `---` line, then the
//! block's lines, then another `---` line, then the body.  This module
//! carves a document into those three parts.  Turning the block's text
//! into structured fields (and back) is the metadata codec's job, an
//! external collaborator; this crate only carries the fields it needs in
//! the plain [`FrontMatter`] record.

use vstd::prelude::*;

use crate::text::push_all;
use crate::text::NEWLINE;

verus! {

/// The byte value of `-`, the fence character.
pub const DASH: u8 = 45;

/// Article metadata, as plain values.  Text is carried as bytes; the
/// application converts to and from its serialized form.
pub struct FrontMatter {
    pub title: Vec<u8>,
    pub tagline: Option<Vec<u8>>,
    pub author: Option<Vec<u8>>,
    pub kind: Option<Vec<u8>>,
    pub date: Vec<u8>,
    pub url: Option<Vec<u8>>,
    pub tags: Vec<Vec<u8>>,
    pub show_summary: bool,
    pub summary: Option<Vec<u8>>,
    pub draft: bool,
    pub related: Vec<Vec<u8>>,
    pub synopsis: Option<Vec<u8>>,
}

/// Position of the first newline at or after `from`, or the text's
/// length when no newline follows.
pub open spec fn line_break_from(s: Seq<u8>, from: int) -> int
    decreases s.len() - from,
{
    if from >= s.len() {
        s.len() as int
    } else if s[from] == NEWLINE {
        from
    } else {
        line_break_from(s, from + 1)
    }
}

pub proof fn lemma_line_break_from(s: Seq<u8>, from: int)
    requires
        0 <= from <= s.len(),
    ensures
        from <= line_break_from(s, from) <= s.len(),
        line_break_from(s, from) == s.len() || s[line_break_from(s, from)] == NEWLINE,
    decreases s.len() - from,
{
    if from < s.len() && s[from] != NEWLINE {
        lemma_line_break_from(s, from + 1);
    }
}

/// The document's lines: maximal newline-free runs.  A trailing newline
/// closes the last line rather than opening an empty one.
pub open spec fn lines_of(s: Seq<u8>) -> Seq<Seq<u8>>
    decreases s.len(),
        via lines_of_dec
{
    if s.len() == 0 {
        Seq::empty()
    } else {
        let p = line_break_from(s, 0);
        if p == s.len() {
            seq![s]
        } else {
            seq![s.take(p)] + lines_of(s.skip(p + 1))
        }
    }
}

#[via_fn]
proof fn lines_of_dec(s: Seq<u8>) {
    if s.len() > 0 {
        lemma_line_break_from(s, 0);
    }
}

/// The lines joined back together with single newlines.
pub open spec fn join_lines(lines: Seq<Seq<u8>>) -> Seq<u8>
    decreases lines.len(),
{
    if lines.len() == 0 {
        Seq::empty()
    } else if lines.len() == 1 {
        lines[0]
    } else {
        join_lines(lines.drop_last()) + seq![NEWLINE] + lines.last()
    }
}

/// Whether a line opens with the `---` fence.
pub open spec fn starts_with_dashes(line: Seq<u8>) -> bool {
    line.len() >= 3 && line[0] == DASH && line[1] == DASH && line[2] == DASH
}

/// The longest fence-free prefix of the lines.
pub open spec fn take_until_dashes(lines: Seq<Seq<u8>>) -> Seq<Seq<u8>>
    decreases lines.len(),
{
    if lines.len() == 0 {
        Seq::empty()
    } else if starts_with_dashes(lines.first()) {
        Seq::empty()
    } else {
        seq![lines.first()] + take_until_dashes(lines.drop_first())
    }
}

/// The metadata block's lines: what stands between the opening fence
/// line and the next fence line.
pub open spec fn front_matter_lines(doc: Seq<u8>) -> Seq<Seq<u8>> {
    if lines_of(doc).len() == 0 {
        Seq::empty()
    } else {
        take_until_dashes(lines_of(doc).skip(1))
    }
}

/// The body: every line past the metadata block and its two fence
/// lines, joined with newlines.
pub open spec fn body_of(doc: Seq<u8>) -> Seq<u8> {
    let n = front_matter_lines(doc).len() + 2;
    if lines_of(doc).len() <= n {
        Seq::empty()
    } else {
        join_lines(lines_of(doc).skip(n as int))
    }
}

/// A scan that stopped at the first fence (or the end) has read exactly
/// the fence-free prefix.
proof fn lemma_take_until_prefix(lines: Seq<Seq<u8>>, k: int)
    requires
        0 <= k <= lines.len(),
        forall|j: int| 0 <= j < k ==> !starts_with_dashes(#[trigger] lines[j]),
        k == lines.len() || starts_with_dashes(lines[k]),
    ensures
        take_until_dashes(lines) == lines.take(k),
    decreases lines.len(),
{
    if lines.len() == 0 {
        assert(take_until_dashes(lines) =~= lines.take(k));
    } else if k == 0 {
        assert(take_until_dashes(lines) =~= lines.take(0));
    } else {
        assert(!starts_with_dashes(lines[0]));
        let rest = lines.drop_first();
        assert(forall|j: int|
            0 <= j < k - 1 ==> !starts_with_dashes(#[trigger] rest[j]));
        lemma_take_until_prefix(rest, k - 1);
        assert(take_until_dashes(lines) == seq![lines.first()] + rest.take(k - 1));
        assert(seq![lines.first()] + rest.take(k - 1) =~= lines.take(k));
    }
}

/// Split a document into its lines.
pub fn split_lines(doc: &Vec<u8>) -> (r: Vec<Vec<u8>>)
    ensures
        r.deep_view() == lines_of(doc@),
{
    let mut r: Vec<Vec<u8>> = Vec::new();
    let mut i: usize = 0;
    proof {
        assert(r.deep_view() =~= Seq::<Seq<u8>>::empty());
        assert(doc@.skip(0) =~= doc@);
        assert(r.deep_view() + lines_of(doc@.skip(0)) =~= lines_of(doc@));
    }
    while i < doc.len()
        invariant
            i <= doc.len(),
            r.deep_view() + lines_of(doc@.skip(i as int)) == lines_of(doc@),
        decreases doc.len() - i,
    {
        let ghost i0 = i as int;
        let ghost rem = doc@.skip(i as int);
        let mut j: usize = i;
        while j < doc.len() && doc[j] != NEWLINE
            invariant
                i <= j <= doc.len(),
                line_break_from(doc@, i as int) == line_break_from(doc@, j as int),
            decreases doc.len() - j,
        {
            proof {
                assert(line_break_from(doc@, j as int) == line_break_from(doc@, j as int + 1));
            }
            j = j + 1;
        }
        proof {
            assert(line_break_from(doc@, j as int) == j as int);
            assert(line_break_from(doc@, i as int) == j as int);
            lemma_skip_line_break(doc@, i as int);
        }
        let mut line: Vec<u8> = Vec::new();
        let mut k: usize = i;
        while k < j
            invariant
                i <= k <= j <= doc.len(),
                line@ == doc@.subrange(i as int, k as int),
            decreases j - k,
        {
            line.push(doc[k]);
            proof {
                assert(doc@.subrange(i as int, k as int + 1)
                    =~= doc@.subrange(i as int, k as int).push(doc@[k as int]));
            }
            k = k + 1;
        }
        let ghost r_before = r.deep_view();
        r.push(line);
        proof {
            assert(line.deep_view() =~= line@);
            assert(r.deep_view() =~= r_before.push(line@));
        }
        if j < doc.len() {
            i = j + 1;
            proof {
                let p = line_break_from(rem, 0);
                assert(p == j as int - i0);
                assert(p < rem.len());
                assert(line@ =~= rem.take(p));
                assert(lines_of(rem) == seq![rem.take(p)] + lines_of(rem.skip(p + 1)));
                assert(rem.skip(p + 1) =~= doc@.skip(i as int));
                assert(r.deep_view() + lines_of(doc@.skip(i as int)) =~= lines_of(doc@));
            }
        } else {
            i = doc.len();
            proof {
                let p = line_break_from(rem, 0);
                assert(p == j as int - i0);
                assert(p == rem.len());
                assert(line@ =~= rem);
                assert(lines_of(rem) == seq![rem]);
                assert(doc@.skip(i as int) =~= Seq::<u8>::empty());
                assert(lines_of(doc@.skip(i as int)) == Seq::<Seq<u8>>::empty());
                assert(r.deep_view() + lines_of(doc@.skip(i as int)) =~= lines_of(doc@));
            }
        }
    }
    proof {
        assert(doc@.skip(i as int) =~= Seq::<u8>::empty());
        assert(r.deep_view() =~= lines_of(doc@));
    }
    r
}

/// The line-break scan over a suffix matches the scan over the whole,
/// shifted.
proof fn lemma_skip_line_break(s: Seq<u8>, i: int)
    requires
        0 <= i <= s.len(),
    ensures
        line_break_from(s.skip(i), 0) == line_break_from(s, i) - i,
    decreases s.len() - i,
{
    lemma_shifted_line_break(s, i, i);
}

proof fn lemma_shifted_line_break(s: Seq<u8>, base: int, at: int)
    requires
        0 <= base <= at <= s.len(),
    ensures
        line_break_from(s.skip(base), at - base) == line_break_from(s, at) - base,
    decreases s.len() - at,
{
    if at < s.len() && s[at] != NEWLINE {
        lemma_shifted_line_break(s, base, at + 1);
    }
}

/// Whether this line opens with the `---` fence.
pub fn line_starts_with_dashes(line: &Vec<u8>) -> (r: bool)
    ensures
        r == starts_with_dashes(line@),
{
    line.len() >= 3 && line[0] == DASH && line[1] == DASH && line[2] == DASH
}

/// Join `lines[start..end]` with newlines.
fn join_range(lines: &Vec<Vec<u8>>, start: usize, end: usize) -> (r: Vec<u8>)
    requires
        start <= end <= lines.len(),
    ensures
        r@ == join_lines(lines.deep_view().subrange(start as int, end as int)),
{
    let mut r: Vec<u8> = Vec::new();
    let mut i: usize = start;
    proof {
        assert(lines.deep_view().subrange(start as int, start as int)
            =~= Seq::<Seq<u8>>::empty());
    }
    while i < end
        invariant
            start <= i <= end <= lines.len(),
            r@ == join_lines(lines.deep_view().subrange(start as int, i as int)),
        decreases end - i,
    {
        if i > start {
            r.push(NEWLINE);
        }
        let line = &lines[i];
        push_all(&mut r, line);
        proof {
            let dv = lines.deep_view();
            let part = dv.subrange(start as int, i as int + 1);
            assert(part.drop_last() =~= dv.subrange(start as int, i as int));
            assert(part.last() == dv[i as int]);
            assert(dv[i as int] =~= line@);
            if i == start {
                assert(join_lines(part) == part[0]);
                assert(r@ =~= part[0]);
            } else {
                assert(join_lines(part)
                    == join_lines(part.drop_last()) + seq![NEWLINE] + part.last());
                assert(r@ =~= join_lines(part.drop_last()) + seq![NEWLINE] + part.last());
            }
        }
        i = i + 1;
    }
    r
}

/// Carve a document into the metadata block's text, the number of lines
/// in that block, and the body text.
pub fn split_document(doc: &Vec<u8>) -> (r: (Vec<u8>, usize, Vec<u8>))
    ensures
        r.0@ == join_lines(front_matter_lines(doc@)),
        r.1 == front_matter_lines(doc@).len(),
        r.2@ == body_of(doc@),
{
    let lines = split_lines(doc);
    let ghost dv = lines.deep_view();
    if lines.len() == 0 {
        proof {
            assert(front_matter_lines(doc@) =~= Seq::<Seq<u8>>::empty());
            assert(join_lines(front_matter_lines(doc@)) =~= Seq::<u8>::empty());
        }
        return (Vec::new(), 0, Vec::new());
    }
    let mut end: usize = 1;
    while end < lines.len() && !line_starts_with_dashes(&lines[end])
        invariant
            1 <= end <= lines.len(),
            lines.deep_view() == dv,
            dv.len() == lines.len(),
            forall|j: int| 1 <= j < end ==> !starts_with_dashes(#[trigger] dv[j]),
        decreases lines.len() - end,
    {
        proof {
            assert(dv[end as int] =~= lines@[end as int]@);
        }
        end = end + 1;
    }
    proof {
        if end < lines.len() {
            assert(dv[end as int] =~= lines@[end as int]@);
        }
        let tail = dv.skip(1);
        assert(forall|j: int|
            0 <= j < end - 1 ==> !starts_with_dashes(#[trigger] tail[j]));
        lemma_take_until_prefix(tail, end as int - 1);
        assert(front_matter_lines(doc@) == tail.take(end as int - 1));
        assert(tail.take(end as int - 1) =~= dv.subrange(1, end as int));
    }
    let fm_text = join_range(&lines, 1, end);
    let fm_size = end - 1;
    let body = if end < lines.len() && lines.len() - end > 1 {
        join_range(&lines, end + 1, lines.len())
    } else {
        Vec::new()
    };
    proof {
        let n = front_matter_lines(doc@).len() + 2;
        assert(n == end as int + 1);
        if end < lines.len() && lines.len() - end > 1 {
            assert(dv.subrange(end as int + 1, dv.len() as int) =~= dv.skip(n as int));
            assert(body@ == body_of(doc@));
        } else {
            assert(lines_of(doc@).len() <= n);
            assert(body@ =~= body_of(doc@));
        }
    }
    (fm_text, fm_size, body)
}

/// When a write fills the related list: only when the list is still
/// empty and something was computed for it.
pub open spec fn merge_fills(existing: Seq<Seq<u8>>, computed: Seq<Seq<u8>>) -> bool {
    existing.len() == 0 && computed.len() > 0
}

/// Fill an empty related list; never overwrite a non-empty one.
/// Reports whether the metadata changed.
pub fn merge_related(fm: &mut FrontMatter, computed: &Vec<Vec<u8>>) -> (changed: bool)
    ensures
        changed == merge_fills(old(fm).related.deep_view(), computed.deep_view()),
        !changed ==> *final(fm) == *old(fm),
        changed ==> final(fm).related.deep_view() == computed.deep_view(),
        final(fm).title == old(fm).title,
        final(fm).tagline == old(fm).tagline,
        final(fm).author == old(fm).author,
        final(fm).kind == old(fm).kind,
        final(fm).date == old(fm).date,
        final(fm).url == old(fm).url,
        final(fm).tags == old(fm).tags,
        final(fm).show_summary == old(fm).show_summary,
        final(fm).summary == old(fm).summary,
        final(fm).draft == old(fm).draft,
        final(fm).synopsis == old(fm).synopsis,
{
    if fm.related.len() > 0 || computed.len() == 0 {
        return false;
    }
    let mut fresh: Vec<Vec<u8>> = Vec::new();
    let mut i: usize = 0;
    proof {
        assert(fresh.deep_view() =~= computed.deep_view().take(0));
    }
    while i < computed.len()
        invariant
            i <= computed.len(),
            fresh.deep_view() == computed.deep_view().take(i as int),
        decreases computed.len() - i,
    {
        let ghost before = fresh.deep_view();
        let item = crate::text::copy_bytes(&computed[i]);
        fresh.push(item);
        proof {
            assert(item.deep_view() =~= computed.deep_view()[i as int]);
            assert(fresh.deep_view() =~= before.push(computed.deep_view()[i as int]));
            assert(fresh.deep_view() =~= computed.deep_view().take(i as int + 1));
        }
        i = i + 1;
    }
    proof {
        assert(computed.deep_view().take(computed@.len() as int) =~= computed.deep_view());
    }
    fm.related = fresh;
    true
}

/// Law: the write stage is idempotent.  A run that filled an article's
/// related list leaves it non-empty, so a second run over unchanged
/// similarity data fills nothing and changes no file.
pub proof fn lemma_second_write_is_noop(
    existing: Seq<Seq<u8>>,
    computed: Seq<Seq<u8>>,
    recomputed: Seq<Seq<u8>>,
)
    requires
        merge_fills(existing, computed),
    ensures
        !merge_fills(computed, recomputed),
{
}

} // verus!
