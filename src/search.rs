//! Case-insensitive search over both panels of an alignment.
use vstd::prelude::*;
use crate::diff_algo::{lines_view, DiffLine, LineView};
use crate::text::{chars_of, push_char, string_from, views};

verus! {

/// The panel that a match lies in.
#[derive(Clone, Copy, Debug, PartialEq, Eq, Structural)]
pub enum MatchPanel {
    Old,
    New,
}

/// Whether a query is being typed.
#[derive(Clone, Copy, Debug, PartialEq, Eq, Structural)]
pub enum SearchMode {
    Inactive,
    InputForward,
}

/// One occurrence of the query: its row, its panel, and its range of
/// characters `[start, end)` in that panel's text.
#[derive(Clone, Copy, Debug, PartialEq, Eq, Structural)]
pub struct SearchMatch {
    pub panel: MatchPanel,
    pub line_index: usize,
    pub start: usize,
    pub end: usize,
}

/// A match, with integer positions.
pub struct MatchView {
    pub panel: MatchPanel,
    pub line: int,
    pub start: int,
    pub end: int,
}

impl View for SearchMatch {
    type V = MatchView;

    open spec fn view(&self) -> MatchView {
        MatchView {
            panel: self.panel,
            line: self.line_index as int,
            start: self.start as int,
            end: self.end as int,
        }
    }
}

/// What `char::to_lowercase` yields for `c`.
pub uninterp spec fn lower_of(c: char) -> Seq<char>;

/// Relies on `char::to_lowercase`: the lowercase form of one character.
#[verifier::external_body]
fn lowercase_char(c: char) -> (r: String)
    ensures
        r@ == lower_of(c),
{
    c.to_lowercase().collect()
}

/// Whether `q` occurs in `t` at position `p`, comparing characters by their
/// lowercase forms. The empty query occurs nowhere.
pub open spec fn occurs_at(t: Seq<char>, q: Seq<char>, p: int) -> bool {
    &&& q.len() > 0
    &&& 0 <= p
    &&& p + q.len() <= t.len()
    &&& forall|k: int| 0 <= k < q.len() ==> lower_of(#[trigger] t[p + k]) == lower_of(q[k])
}

/// The text of one panel of a row, if that panel shows a line.
pub open spec fn panel_text(l: LineView, panel: MatchPanel) -> Option<Seq<char>> {
    let side = match panel {
        MatchPanel::Old => l.old_line,
        MatchPanel::New => l.new_line,
    };
    match side {
        Some(x) => Some(x.1),
        None => None,
    }
}

/// The match of `q` in one panel of row `li` at position `p`, if any.
pub open spec fn match_in(l: LineView, li: int, q: Seq<char>, p: int, panel: MatchPanel) -> Seq<MatchView> {
    match panel_text(l, panel) {
        Some(t) => if occurs_at(t, q, p) {
            seq![MatchView { panel, line: li, start: p, end: p + q.len() }]
        } else {
            seq![]
        },
        None => seq![],
    }
}

/// The matches of row `li` that start before position `p`: by position,
/// and the old panel first at one position.
pub open spec fn row_matches_upto(l: LineView, li: int, q: Seq<char>, p: int) -> Seq<MatchView>
    decreases p,
{
    if p <= 0 {
        seq![]
    } else {
        row_matches_upto(l, li, q, p - 1) + match_in(l, li, q, p - 1, MatchPanel::Old) + match_in(
            l,
            li,
            q,
            p - 1,
            MatchPanel::New,
        )
    }
}

pub open spec fn text_len(l: LineView, panel: MatchPanel) -> int {
    match panel_text(l, panel) {
        Some(t) => t.len() as int,
        None => 0,
    }
}

/// The matches of row `li`.
pub open spec fn row_matches(l: LineView, li: int, q: Seq<char>) -> Seq<MatchView> {
    let n = if text_len(l, MatchPanel::Old) >= text_len(l, MatchPanel::New) {
        text_len(l, MatchPanel::Old)
    } else {
        text_len(l, MatchPanel::New)
    };
    row_matches_upto(l, li, q, n)
}

/// The matches of the first `k` rows, by row.
pub open spec fn matches_upto(v: Seq<LineView>, q: Seq<char>, k: int) -> Seq<MatchView>
    decreases k,
{
    if k <= 0 {
        seq![]
    } else {
        matches_upto(v, q, k - 1) + row_matches(v[k - 1], k - 1, q)
    }
}

/// Every match of `q` in the rows `v`, ordered by row, then position, then
/// panel (old first). The empty query has none.
pub open spec fn all_matches(v: Seq<LineView>, q: Seq<char>) -> Seq<MatchView> {
    if q.len() == 0 {
        seq![]
    } else {
        matches_upto(v, q, v.len() as int)
    }
}

pub open spec fn match_views(v: Seq<SearchMatch>) -> Seq<MatchView> {
    v.map_values(|m: SearchMatch| m@)
}

/// The matches of one row and panel, each with whether it is the current one.
pub open spec fn for_line_upto(
    ms: Seq<MatchView>,
    current: int,
    li: int,
    panel: MatchPanel,
    k: int,
) -> Seq<(int, int, bool)>
    decreases k,
{
    if k <= 0 {
        seq![]
    } else {
        let p = for_line_upto(ms, current, li, panel, k - 1);
        let m = ms[k - 1];
        if m.line == li && m.panel == panel {
            p.push((m.start, m.end, k - 1 == current))
        } else {
            p
        }
    }
}

/// The state of the search: the mode, the query, its matches in the
/// current file and which of them is current.
pub struct SearchState {
    mode: SearchMode,
    query: String,
    matches: Vec<SearchMatch>,
    current: usize,
}

fn fold_chars(cs: &Vec<char>) -> (r: Vec<String>)
    ensures
        r.len() == cs.len(),
        forall|k: int| 0 <= k < cs.len() ==> (#[trigger] r@[k])@ == lower_of(cs@[k]),
{
    let mut r: Vec<String> = Vec::new();
    let mut k: usize = 0;
    while k < cs.len()
        invariant
            k <= cs.len(),
            r.len() == k,
            forall|x: int| 0 <= x < k ==> (#[trigger] r@[x])@ == lower_of(cs@[x]),
        decreases cs.len() - k,
    {
        r.push(lowercase_char(cs[k]));
        k = k + 1;
    }
    r
}

/// Whether the folded query `fq` occurs in the folded text `ft` at `p`:
/// every folded character of the query equals the one it lies on. The
/// empty query occurs nowhere.
pub open spec fn folded_at(ft: Seq<Seq<char>>, fq: Seq<Seq<char>>, p: int) -> bool {
    &&& fq.len() > 0
    &&& 0 <= p
    &&& p + fq.len() <= ft.len()
    &&& forall|k: int| 0 <= k < fq.len() ==> #[trigger] ft[p + k] == fq[k]
}

/// Tells whether the folded query `fq` occurs in the folded text `ft` at `p`
/// (each character already in lowercase form).
pub fn occurs_in_folded(ft: &Vec<String>, fq: &Vec<String>, p: usize) -> (r: bool)
    ensures
        r == folded_at(views(ft@), views(fq@), p as int),
{
    let ghost vt = views(ft@);
    let ghost vq = views(fq@);
    if fq.len() == 0 || p > ft.len() || fq.len() > ft.len() - p {
        return false;
    }
    let mut k: usize = 0;
    while k < fq.len()
        invariant
            k <= fq.len(),
            fq.len() > 0,
            p + fq.len() <= ft.len(),
            vt == views(ft@),
            vq == views(fq@),
            forall|x: int| 0 <= x < k ==> #[trigger] vt[p + x] == vq[x],
        decreases fq.len() - k,
    {
        assert(vt[p + k] == ft@[p + k]@);
        assert(vq[k as int] == fq@[k as int]@);
        if ft[p + k] != fq[k] {
            return false;
        }
        k = k + 1;
    }
    true
}

/// Whether the folded query `fq` occurs in the folded text `ft` at `p`.
fn occurs_folded(ft: &Vec<String>, fq: &Vec<String>, p: usize, gt: Ghost<Seq<char>>, gq: Ghost<Seq<char>>) -> (r: bool)
    requires
        ft.len() == gt@.len(),
        fq.len() == gq@.len(),
        forall|k: int| 0 <= k < gt@.len() ==> (#[trigger] ft@[k])@ == lower_of(gt@[k]),
        forall|k: int| 0 <= k < gq@.len() ==> (#[trigger] fq@[k])@ == lower_of(gq@[k]),
    ensures
        r == occurs_at(gt@, gq@, p as int),
{
    let r = occurs_in_folded(ft, fq, p);
    proof {
        let vt = views(ft@);
        let vq = views(fq@);
        if folded_at(vt, vq, p as int) {
            assert forall|k: int| 0 <= k < gq@.len() implies lower_of(#[trigger] gt@[p + k]) == lower_of(gq@[k]) by {
                assert(vt[p + k] == vq[k]);
                assert(vt[p + k] == ft@[p + k]@);
                assert(vq[k] == fq@[k]@);
            }
        }
        if occurs_at(gt@, gq@, p as int) {
            assert forall|k: int| 0 <= k < vq.len() implies #[trigger] vt[p + k] == vq[k] by {
                assert(lower_of(gt@[p + k]) == lower_of(gq@[k]));
                assert(vt[p + k] == ft@[p + k]@);
                assert(vq[k] == fq@[k]@);
            }
        }
    }
    r
}

/// The folded text of one panel of a row; empty where the panel shows no line.
fn fold_panel(line: &DiffLine, panel: MatchPanel) -> (r: (bool, Vec<String>))
    ensures
        r.0 == (panel_text(line@, panel) is Some),
        r.0 ==> r.1.len() == panel_text(line@, panel)->0.len(),
        r.0 ==> forall|k: int|
            0 <= k < r.1.len() ==> (#[trigger] r.1@[k])@ == lower_of(panel_text(line@, panel)->0[k]),
        !r.0 ==> r.1.len() == 0,
{
    let side = match panel {
        MatchPanel::Old => &line.old_line,
        MatchPanel::New => &line.new_line,
    };
    match side {
        Some(x) => {
            let cs = chars_of(x.1.as_str());
            (true, fold_chars(&cs))
        },
        None => (false, Vec::new()),
    }
}

fn push_row_matches(
    line: &DiffLine,
    li: usize,
    fq: &Vec<String>,
    gq: Ghost<Seq<char>>,
    out: &mut Vec<SearchMatch>,
)
    requires
        fq.len() == gq@.len(),
        forall|k: int| 0 <= k < gq@.len() ==> (#[trigger] fq@[k])@ == lower_of(gq@[k]),
    ensures
        match_views(final(out)@) == match_views(old(out)@) + row_matches(line@, li as int, gq@),
{
    let ghost base = match_views(out@);
    let ghost l = line@;
    let (has_old, fo) = fold_panel(line, MatchPanel::Old);
    let (has_new, fnew) = fold_panel(line, MatchPanel::New);
    let n = if fo.len() >= fnew.len() {
        fo.len()
    } else {
        fnew.len()
    };
    assert(text_len(l, MatchPanel::Old) == fo.len());
    assert(text_len(l, MatchPanel::New) == fnew.len());
    let mut p: usize = 0;
    assert(match_views(out@) == base + row_matches_upto(l, li as int, gq@, 0));
    while p < n
        invariant
            p <= n,
            l == line@,
            fq.len() == gq@.len(),
            forall|k: int| 0 <= k < gq@.len() ==> (#[trigger] fq@[k])@ == lower_of(gq@[k]),
            has_old == (panel_text(l, MatchPanel::Old) is Some),
            has_old ==> fo.len() == panel_text(l, MatchPanel::Old)->0.len(),
            has_old ==> forall|k: int|
                0 <= k < fo.len() ==> (#[trigger] fo@[k])@ == lower_of(panel_text(l, MatchPanel::Old)->0[k]),
            !has_old ==> fo.len() == 0,
            has_new == (panel_text(l, MatchPanel::New) is Some),
            has_new ==> fnew.len() == panel_text(l, MatchPanel::New)->0.len(),
            has_new ==> forall|k: int|
                0 <= k < fnew.len() ==> (#[trigger] fnew@[k])@ == lower_of(panel_text(l, MatchPanel::New)->0[k]),
            !has_new ==> fnew.len() == 0,
            match_views(out@) == base + row_matches_upto(l, li as int, gq@, p as int),
        decreases n - p,
    {
        let ghost before = match_views(out@);
        if has_old && occurs_folded(&fo, fq, p, Ghost(panel_text(l, MatchPanel::Old)->0), gq) {
            let m = SearchMatch { panel: MatchPanel::Old, line_index: li, start: p, end: p + fq.len() };
            let ghost b0 = out@;
            out.push(m);
            assert(match_views(out@) =~= match_views(b0).push(m@));
        }
        let ghost mid = match_views(out@);
        assert(mid == before + match_in(l, li as int, gq@, p as int, MatchPanel::Old));
        if has_new && occurs_folded(&fnew, fq, p, Ghost(panel_text(l, MatchPanel::New)->0), gq) {
            let m = SearchMatch { panel: MatchPanel::New, line_index: li, start: p, end: p + fq.len() };
            let ghost b0 = out@;
            out.push(m);
            assert(match_views(out@) =~= match_views(b0).push(m@));
        }
        assert(match_views(out@) == mid + match_in(l, li as int, gq@, p as int, MatchPanel::New));
        assert(row_matches_upto(l, li as int, gq@, p + 1) == row_matches_upto(l, li as int, gq@, p as int)
            + match_in(l, li as int, gq@, p as int, MatchPanel::Old) + match_in(l, li as int, gq@, p as int, MatchPanel::New));
        assert(match_views(out@) =~= base + row_matches_upto(l, li as int, gq@, p + 1));
        p = p + 1;
    }
}

/// Every match of `query` in `lines`, in the order of `all_matches`.
fn find_matches(lines: &[DiffLine], query: &String) -> (r: Vec<SearchMatch>)
    ensures
        match_views(r@) == all_matches(lines_view(lines@), query@),
{
    let mut out: Vec<SearchMatch> = Vec::new();
    let qs = chars_of(query.as_str());
    if qs.len() == 0 {
        assert(match_views(out@) =~= Seq::<MatchView>::empty());
        return out;
    }
    let fq = fold_chars(&qs);
    let ghost v = lines_view(lines@);
    let mut k: usize = 0;
    assert(match_views(out@) =~= matches_upto(v, query@, 0));
    while k < lines.len()
        invariant
            k <= lines.len(),
            v == lines_view(lines@),
            qs@ == query@,
            fq.len() == qs@.len(),
            forall|x: int| 0 <= x < qs@.len() ==> (#[trigger] fq@[x])@ == lower_of(qs@[x]),
            match_views(out@) == matches_upto(v, query@, k as int),
        decreases lines.len() - k,
    {
        push_row_matches(&lines[k], k, &fq, Ghost(qs@), &mut out);
        assert(v[k as int] == lines@[k as int]@);
        k = k + 1;
    }
    out
}

impl SearchState {
    /// The current match indexes the matches, or is 0 when there are none.
    pub open spec fn wf(&self) -> bool {
        self.current_view() < self.matches_view().len() || (self.matches_view().len() == 0
            && self.current_view() == 0)
    }

    pub closed spec fn mode_view(&self) -> SearchMode {
        self.mode
    }

    pub closed spec fn query_view(&self) -> Seq<char> {
        self.query@
    }

    pub closed spec fn matches_view(&self) -> Seq<MatchView> {
        match_views(self.matches@)
    }

    pub closed spec fn current_view(&self) -> int {
        self.current as int
    }

    /// No search: inactive, empty query, no match.
    pub fn new() -> (r: SearchState)
        ensures
            r.wf(),
            r.mode_view() == SearchMode::Inactive,
            r.query_view().len() == 0,
            r.matches_view().len() == 0,
    {
        let r = SearchState {
            mode: SearchMode::Inactive,
            query: String::new(),
            matches: Vec::new(),
            current: 0,
        };
        assert(match_views(r.matches@) =~= Seq::<MatchView>::empty());
        r
    }

    /// The mode.
    pub fn mode(&self) -> (r: SearchMode)
        ensures
            r == self.mode_view(),
    {
        self.mode
    }

    /// Whether a query is being typed.
    pub fn is_active(&self) -> (r: bool)
        ensures
            r == (self.mode_view() == SearchMode::InputForward),
    {
        self.mode == SearchMode::InputForward
    }

    /// Whether there is a query.
    pub fn has_query(&self) -> (r: bool)
        ensures
            r == (self.query_view().len() > 0),
    {
        !self.query.as_str().is_empty()
    }

    /// The query.
    pub fn query(&self) -> (r: &String)
        ensures
            r@ == self.query_view(),
    {
        &self.query
    }

    /// How many matches there are.
    pub fn match_count(&self) -> (r: usize)
        ensures
            r == self.matches_view().len(),
    {
        self.matches.len()
    }

    /// The index of the current match, if there is any match.
    pub fn current_match_index(&self) -> (r: Option<usize>)
        requires
            self.wf(),
        ensures
            self.matches_view().len() == 0 ==> r is None,
            self.matches_view().len() > 0 ==> r == Some(self.current_view() as usize),
    {
        if self.matches.len() == 0 {
            None
        } else {
            Some(self.current)
        }
    }

    /// The current match, if there is any match.
    pub fn current_match(&self) -> (r: Option<SearchMatch>)
        requires
            self.wf(),
        ensures
            self.matches_view().len() == 0 ==> r is None,
            self.matches_view().len() > 0 ==> r is Some && r->0@ == self.matches_view()[self.current_view()],
    {
        if self.matches.len() == 0 {
            None
        } else {
            Some(self.matches[self.current])
        }
    }

    /// Recomputes the matches of the query over `lines`; the first becomes
    /// current.
    pub fn update_matches(&mut self, lines: &[DiffLine])
        ensures
            final(self).wf(),
            final(self).mode_view() == old(self).mode_view(),
            final(self).query_view() == old(self).query_view(),
            final(self).matches_view() == all_matches(lines_view(lines@), old(self).query_view()),
            final(self).current_view() == 0,
    {
        self.matches = find_matches(lines, &self.query);
        self.current = 0;
    }

    /// Starts typing a new query: the query and its matches are cleared.
    pub fn start_search(&mut self)
        ensures
            final(self).wf(),
            final(self).mode_view() == SearchMode::InputForward,
            final(self).query_view().len() == 0,
            final(self).matches_view().len() == 0,
    {
        self.mode = SearchMode::InputForward;
        self.query = String::new();
        self.matches = Vec::new();
        self.current = 0;
        assert(match_views(self.matches@) =~= Seq::<MatchView>::empty());
    }

    /// Appends a character to the query and searches `lines` again.
    pub fn push_char(&mut self, c: char, lines: &[DiffLine])
        ensures
            final(self).wf(),
            final(self).mode_view() == old(self).mode_view(),
            final(self).query_view() == old(self).query_view().push(c),
            final(self).matches_view() == all_matches(lines_view(lines@), old(self).query_view().push(c)),
            final(self).current_view() == 0,
    {
        push_char(&mut self.query, c);
        self.update_matches(lines);
    }

    /// Removes the last character of the query, if any, and searches `lines`
    /// again.
    pub fn pop_char(&mut self, lines: &[DiffLine])
        ensures
            final(self).wf(),
            final(self).mode_view() == old(self).mode_view(),
            final(self).query_view() == (if old(self).query_view().len() == 0 {
                old(self).query_view()
            } else {
                old(self).query_view().drop_last()
            }),
            final(self).matches_view() == all_matches(lines_view(lines@), final(self).query_view()),
            final(self).current_view() == 0,
    {
        let cs = chars_of(self.query.as_str());
        if cs.len() > 0 {
            self.query = string_from(&cs, 0, cs.len() - 1);
            assert(cs@.subrange(0, cs.len() - 1) == cs@.drop_last());
        }
        self.update_matches(lines);
    }

    /// Leaves typing; the query and its matches stay for navigation.
    pub fn confirm(&mut self)
        ensures
            final(self).mode_view() == SearchMode::Inactive,
            final(self).query_view() == old(self).query_view(),
            final(self).matches_view() == old(self).matches_view(),
            final(self).current_view() == old(self).current_view(),
            old(self).wf() ==> final(self).wf(),
    {
        self.mode = SearchMode::Inactive;
    }

    /// Leaves typing; the query and its matches stay for navigation.
    pub fn cancel(&mut self)
        ensures
            final(self).mode_view() == SearchMode::Inactive,
            final(self).query_view() == old(self).query_view(),
            final(self).matches_view() == old(self).matches_view(),
            final(self).current_view() == old(self).current_view(),
            old(self).wf() ==> final(self).wf(),
    {
        self.mode = SearchMode::Inactive;
    }

    /// Drops the query and its matches.
    pub fn clear(&mut self)
        ensures
            final(self).wf(),
            final(self).mode_view() == SearchMode::Inactive,
            final(self).query_view().len() == 0,
            final(self).matches_view().len() == 0,
    {
        self.mode = SearchMode::Inactive;
        self.query = String::new();
        self.matches = Vec::new();
        self.current = 0;
        assert(match_views(self.matches@) =~= Seq::<MatchView>::empty());
    }

    /// Moves to the next match, from the last back to the first.
    pub fn next_match(&mut self)
        requires
            old(self).wf(),
        ensures
            final(self).wf(),
            final(self).mode_view() == old(self).mode_view(),
            final(self).query_view() == old(self).query_view(),
            final(self).matches_view() == old(self).matches_view(),
            old(self).matches_view().len() == 0 ==> final(self).current_view() == 0,
            old(self).matches_view().len() > 0 ==> final(self).current_view() == (old(
                self,
            ).current_view() + 1) % (old(self).matches_view().len() as int),
    {
        if self.matches.len() > 0 {
            self.current = (self.current + 1) % self.matches.len();
        }
    }

    /// Moves to the previous match, from the first back to the last.
    pub fn prev_match(&mut self)
        requires
            old(self).wf(),
        ensures
            final(self).wf(),
            final(self).mode_view() == old(self).mode_view(),
            final(self).query_view() == old(self).query_view(),
            final(self).matches_view() == old(self).matches_view(),
            old(self).matches_view().len() == 0 ==> final(self).current_view() == 0,
            old(self).matches_view().len() > 0 ==> final(self).current_view() == (if old(
                self,
            ).current_view() == 0 {
                old(self).matches_view().len() - 1
            } else {
                old(self).current_view() - 1
            }),
    {
        if self.matches.len() > 0 {
            self.current = if self.current == 0 {
                self.matches.len() - 1
            } else {
                self.current - 1
            };
        }
    }

    /// The matches on row `line_index` in `panel`, as `(start, end, is_current)`.
    pub fn get_matches_for_line(&self, line_index: usize, panel: MatchPanel) -> (r: Vec<(usize, usize, bool)>)
        ensures
            r@.map_values(|x: (usize, usize, bool)| (x.0 as int, x.1 as int, x.2)) == for_line_upto(
                self.matches_view(),
                self.current_view(),
                line_index as int,
                panel,
                self.matches_view().len() as int,
            ),
    {
        let ghost ms = match_views(self.matches@);
        let mut r: Vec<(usize, usize, bool)> = Vec::new();
        let mut k: usize = 0;
        while k < self.matches.len()
            invariant
                k <= self.matches.len(),
                ms == match_views(self.matches@),
                r@.map_values(|x: (usize, usize, bool)| (x.0 as int, x.1 as int, x.2)) == for_line_upto(
                    ms,
                    self.current as int,
                    line_index as int,
                    panel,
                    k as int,
                ),
            decreases self.matches.len() - k,
        {
            let m = self.matches[k];
            assert(ms[k as int] == m@);
            if m.line_index == line_index && m.panel == panel {
                let ghost before = r@;
                r.push((m.start, m.end, k == self.current));
                assert(r@.map_values(|x: (usize, usize, bool)| (x.0 as int, x.1 as int, x.2)) =~= before.map_values(
                    |x: (usize, usize, bool)| (x.0 as int, x.1 as int, x.2),
                ).push((m.start as int, m.end as int, k == self.current)));
            }
            k = k + 1;
        }
        r
    }
}

} // verus!
