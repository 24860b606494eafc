//! The context band: lines just above the first visible row.
use vstd::prelude::*;
use crate::text::{expand_tabs, expand_tabs_str, lines_of, split_lines, views};
use crate::types::ContextSettings;

verus! {

/// A line shown for orientation above the visible rows.
#[derive(Clone, Debug, PartialEq, Eq)]
pub struct ContextLine {
    pub line_number: usize,
    pub content: String,
}

/// The context band of `content` above row `scroll`: up to `max_lines`
/// lines strictly before it, nearest last, numbered from 1, tabs expanded.
pub open spec fn context_window(
    content: Seq<char>,
    scroll: int,
    enabled: bool,
    max_lines: int,
    w: nat,
) -> Seq<(int, Seq<char>)> {
    let ls = lines_of(content);
    let end = if scroll <= ls.len() {
        scroll
    } else {
        ls.len() as int
    };
    let count = if max_lines <= end {
        max_lines
    } else {
        end
    };
    let start = end - count;
    if !enabled || scroll == 0 {
        seq![]
    } else {
        Seq::new(count as nat, |t: int| (start + t + 1, expand_tabs(ls[start + t], w)))
    }
}

pub open spec fn context_view(v: Seq<ContextLine>) -> Seq<(int, Seq<char>)> {
    v.map_values(|c: ContextLine| (c.line_number as int, c.content@))
}

/// The lines of `content` that precede row `scroll_offset`, at most
/// `settings.max_lines` of them; none when the band is off or at the top.
pub fn compute_context_lines(
    content: &str,
    scroll_offset: usize,
    settings: &ContextSettings,
    tab_width: usize,
) -> (r: Vec<ContextLine>)
    ensures
        context_view(r@) == context_window(
            content@,
            scroll_offset as int,
            settings.enabled,
            settings.max_lines as int,
            tab_width as nat,
        ),
{
    let mut r: Vec<ContextLine> = Vec::new();
    if !settings.enabled || scroll_offset == 0 {
        assert(context_view(r@) =~= Seq::<(int, Seq<char>)>::empty());
        return r;
    }
    let ls = split_lines(content);
    let ghost gl = lines_of(content@);
    assert(views(ls@).len() == ls.len());
    let end = if scroll_offset <= ls.len() {
        scroll_offset
    } else {
        ls.len()
    };
    let count = if settings.max_lines <= end {
        settings.max_lines
    } else {
        end
    };
    let start = end - count;
    let ghost want = context_window(
        content@,
        scroll_offset as int,
        settings.enabled,
        settings.max_lines as int,
        tab_width as nat,
    );
    let mut t: usize = 0;
    while t < count
        invariant
            t <= count,
            start + count == end,
            end <= ls.len(),
            views(ls@) == gl,
            gl == lines_of(content@),
            want.len() == count,
            forall|q: int| 0 <= q < count ==> #[trigger] want[q] == (start + q + 1, expand_tabs(gl[start + q], tab_width as nat)),
            context_view(r@) == want.take(t as int),
        decreases count - t,
    {
        let line = ContextLine {
            line_number: start + t + 1,
            content: expand_tabs_str(ls[start + t].as_str(), tab_width),
        };
        assert(gl[start + t] == ls@[start + t]@);
        let ghost before = r@;
        r.push(line);
        assert(context_view(r@) =~= context_view(before).push((line.line_number as int, line.content@)));
        assert(want.take(t + 1) =~= want.take(t as int).push(want[t as int]));
        t = t + 1;
    }
    assert(want.take(count as int) =~= want);
    r
}

/// The height of the context band that spans both panels: the larger of
/// the two sides' counts (the shorter side is padded with blank rows).
pub fn band_height(old_context: &[ContextLine], new_context: &[ContextLine]) -> (r: usize)
    ensures
        r == (if old_context@.len() >= new_context@.len() {
            old_context@.len()
        } else {
            new_context@.len()
        }),
{
    if old_context.len() >= new_context.len() {
        old_context.len()
    } else {
        new_context.len()
    }
}

} // verus!
