//! The viewer's session: files, selection, scroll, viewed marks, reload.
use vstd::prelude::*;
use crate::diff_algo::{compute_side_by_side, find_hunk_starts, hunk_starts, side_by_side};
use crate::laws_tree::{file_entries, lemma_one_entry_per_file};
use crate::search::{SearchMode, SearchState};
use crate::tree::{build_file_tree, file_tree, files_info, items_view, ItemView, SidebarItem};
use crate::types::{DiffFullscreen, DiffViewSettings, FileDiff, FocusedPanel};

verus! {

/// A key that waits for a second one (`g` of `gg`).
#[derive(Clone, Copy, Debug, PartialEq, Eq, Structural)]
pub enum PendingKey {
    Idle,
    G,
}

/// How many rows before the first hunk the initial scroll shows.
pub const HUNK_LOOKBACK: usize = 5;

/// How many rows of a file stay in view at the furthest scroll.
pub const VIEWPORT_MARGIN: usize = 10;

/// The largest scroll offset.
pub const MAX_SCROLL: usize = 65535;

/// `v` as a scroll offset: at least 0, at most `MAX_SCROLL`.
pub open spec fn clamp_scroll(v: int) -> int {
    if v < 0 {
        0
    } else if v > MAX_SCROLL {
        MAX_SCROLL as int
    } else {
        v
    }
}

/// The scroll that opens a file: a few rows before its first hunk, or the
/// top when it has none.
pub open spec fn initial_scroll(old: Seq<char>, new: Seq<char>, w: nat) -> int {
    let h = hunk_starts(side_by_side(old, new, w));
    if h.len() == 0 {
        0
    } else {
        clamp_scroll(h[0] - HUNK_LOOKBACK)
    }
}

/// The scroll opening `d`.
pub open spec fn initial_scroll_of(d: FileDiff, w: nat) -> int {
    initial_scroll(d.old_content@, d.new_content@, w)
}

/// Returns the scroll that opens `diff`: `HUNK_LOOKBACK` rows before its
/// first hunk, or 0 when it has no hunk.
pub fn calc_initial_scroll(diff: &FileDiff, tab_width: usize) -> (r: u16)
    ensures
        r as int == initial_scroll_of(*diff, tab_width as nat),
{
    let lines = compute_side_by_side(diff.old_content.as_str(), diff.new_content.as_str(), tab_width);
    let hunks = find_hunk_starts(lines.as_slice());
    assert(hunks@.map_values(|x: usize| x as int).len() == hunks.len());
    if hunks.len() == 0 {
        0
    } else {
        assert(hunks@.map_values(|x: usize| x as int)[0] == hunks@[0] as int);
        let h = hunks[0];
        if h < HUNK_LOOKBACK {
            0
        } else if h - HUNK_LOOKBACK > MAX_SCROLL {
            MAX_SCROLL as u16
        } else {
            (h - HUNK_LOOKBACK) as u16
        }
    }
}

/// The scroll that brings row `line` into view, keeping a margin of 10 rows
/// from either edge of a panel `visible_height` rows tall (borders
/// included), at most `max_scroll`.
pub open spec fn scroll_to_line(line: int, scroll: int, visible_height: int, max_scroll: int) -> int {
    let margin = 10int;
    let content = if visible_height >= 2 {
        visible_height - 2
    } else {
        0
    };
    let inner = if content >= margin {
        content - margin
    } else {
        0
    };
    let wanted = if line < scroll + margin {
        if line >= margin {
            line - margin
        } else {
            0
        }
    } else if line >= scroll + inner {
        let back = if inner >= 1 {
            inner - 1
        } else {
            0
        };
        if line >= back {
            line - back
        } else {
            0
        }
    } else {
        scroll
    };
    let limited = if wanted <= max_scroll {
        wanted
    } else {
        max_scroll
    };
    clamp_scroll(limited)
}

/// Returns the scroll that brings row `line` into view (see `scroll_to_line`).
pub fn adjust_scroll_to_line(line: usize, scroll: u16, visible_height: usize, max_scroll: usize) -> (r: u16)
    ensures
        r as int == scroll_to_line(line as int, scroll as int, visible_height as int, max_scroll as int),
{
    let margin: usize = 10;
    let s = scroll as usize;
    let content = visible_height.saturating_sub(2);
    let inner = content.saturating_sub(margin);
    let wanted: usize = if line < s + margin {
        line.saturating_sub(margin)
    } else if line - s >= inner {
        line.saturating_sub(inner.saturating_sub(1))
    } else {
        s
    };
    let limited = if wanted <= max_scroll {
        wanted
    } else {
        max_scroll
    };
    if limited > MAX_SCROLL {
        MAX_SCROLL as u16
    } else {
        limited as u16
    }
}

/// Whether entry `p` of `items` is the file entry of file `i`.
pub open spec fn is_entry_of(items: Seq<ItemView>, p: int, i: int) -> bool {
    0 <= p < items.len() && (items[p] matches ItemView::File { index, .. } && index == i)
}

/// Whether entry `p` is the first file entry of file `i`.
pub open spec fn is_first_entry_of(items: Seq<ItemView>, p: int, i: int) -> bool {
    is_entry_of(items, p, i) && forall|q: int| 0 <= q < p ==> !is_entry_of(items, q, i)
}

/// Whether entry `p` is the first file entry of any file.
pub open spec fn is_first_file_entry(items: Seq<ItemView>, p: int) -> bool {
    &&& 0 <= p < items.len()
    &&& items[p] is File
    &&& forall|q: int| 0 <= q < p ==> !(items[q] is File)
}

/// The position of the first entry of file `i` in `items`, which has one.
fn find_entry(items: &Vec<SidebarItem>, i: usize) -> (r: usize)
    requires
        exists|p: int| is_entry_of(items_view(items@), p, i as int),
    ensures
        is_first_entry_of(items_view(items@), r as int, i as int),
{
    let ghost v = items_view(items@);
    let mut p: usize = 0;
    while p < items.len()
        invariant
            p <= items.len(),
            v == items_view(items@),
            v.len() == items.len(),
            forall|q: int| 0 <= q < p ==> !is_entry_of(v, q, i as int),
        decreases items.len() - p,
    {
        assert(v[p as int] == items@[p as int]@);
        match &items[p] {
            SidebarItem::File { file_index, .. } => {
                if *file_index == i {
                    return p;
                }
            },
            SidebarItem::Directory { .. } => {},
        }
        p = p + 1;
    }
    proof {
        let q = choose|q: int| is_entry_of(v, q, i as int);
        assert(!is_entry_of(v, q, i as int));
    }
    p
}

/// The position of the first file entry in `items`, and its file.
fn first_file_entry(items: &Vec<SidebarItem>) -> (r: Option<(usize, usize)>)
    ensures
        r matches Some(x) ==> is_first_file_entry(items_view(items@), x.0 as int) && is_entry_of(
            items_view(items@),
            x.0 as int,
            x.1 as int,
        ),
        r is None ==> forall|q: int| 0 <= q < items.len() ==> !(#[trigger] items_view(items@)[q] is File),
{
    let ghost v = items_view(items@);
    let mut p: usize = 0;
    while p < items.len()
        invariant
            p <= items.len(),
            v == items_view(items@),
            v.len() == items.len(),
            forall|q: int| 0 <= q < p ==> !(#[trigger] v[q] is File),
        decreases items.len() - p,
    {
        assert(v[p as int] == items@[p as int]@);
        match &items[p] {
            SidebarItem::File { file_index, .. } => {
                return Some((p, *file_index));
            },
            SidebarItem::Directory { .. } => {},
        }
        p = p + 1;
    }
    None
}

/// A sidebar with a file entry for file `i` has one at some position.
proof fn lemma_entry_exists(v: Seq<ItemView>, i: int)
    requires
        file_entries(v, i) > 0,
    ensures
        exists|p: int| is_entry_of(v, p, i),
    decreases v.len(),
{
    if v.len() > 0 {
        if v.last() matches ItemView::File { index, .. } && index == i {
            assert(is_entry_of(v, v.len() - 1, i));
        } else {
            lemma_entry_exists(v.drop_last(), i);
            let p = choose|p: int| is_entry_of(v.drop_last(), p, i);
            assert(is_entry_of(v, p, i));
        }
    }
}


proof fn lemma_entry_counted(v: Seq<ItemView>, p: int, i: int)
    requires
        is_entry_of(v, p, i),
    ensures
        file_entries(v, i) > 0,
    decreases v.len(),
{
    if p < v.len() - 1 {
        assert(is_entry_of(v.drop_last(), p, i));
        lemma_entry_counted(v.drop_last(), p, i);
    }
}

/// Whether some string of `v` reads `n`.
pub open spec fn holds_name(v: Seq<String>, n: Seq<char>) -> bool {
    exists|k: int| 0 <= k < v.len() && #[trigger] v[k]@ == n
}

proof fn lemma_holds_push(s: Seq<String>, x: String, n: Seq<char>)
    ensures
        holds_name(s.push(x), n) == (holds_name(s, n) || x@ == n),
{
    if holds_name(s, n) {
        let k = choose|k: int| 0 <= k < s.len() && #[trigger] s[k]@ == n;
        assert(s.push(x)[k]@ == n);
    }
    if x@ == n {
        assert(s.push(x)[s.len() as int]@ == n);
    }
    if holds_name(s.push(x), n) {
        let k = choose|k: int| 0 <= k < s.len() + 1 && #[trigger] s.push(x)[k]@ == n;
        if k < s.len() {
            assert(s[k]@ == n);
        }
    }
}

/// Whether `changed` names `n`.
pub open spec fn names_changed(changed: Option<&Vec<String>>, n: Seq<char>) -> bool {
    match changed {
        Some(c) => holds_name(c@, n),
        None => false,
    }
}

/// Whether some string of `v` equals `s`.
pub(crate) fn contains_name(v: &Vec<String>, s: &String) -> (r: bool)
    ensures
        r == holds_name(v@, s@),
{
    let mut k: usize = 0;
    while k < v.len()
        invariant
            k <= v.len(),
            forall|q: int| 0 <= q < k ==> v@[q]@ != s@,
        decreases v.len() - k,
    {
        if v[k] == *s {
            return true;
        }
        k = k + 1;
    }
    false
}

/// The session state of the viewer.
pub struct AppState {
    pub file_diffs: Vec<FileDiff>,
    pub sidebar_items: Vec<SidebarItem>,
    pub current_file: usize,
    pub sidebar_selected: usize,
    pub sidebar_scroll: usize,
    pub sidebar_h_scroll: u16,
    pub scroll: u16,
    pub h_scroll: u16,
    pub focused_panel: FocusedPanel,
    pub viewed_files: Vec<String>,
    pub show_sidebar: bool,
    pub settings: DiffViewSettings,
    pub diff_fullscreen: DiffFullscreen,
    pub search_state: SearchState,
    pub pending_key: PendingKey,
    pub needs_reload: bool,
}

impl AppState {
    /// The sidebar is the tree of the files; the current file is one of
    /// them (0 when there is none) and the selected entry is its entry.
    pub open spec fn wf(&self) -> bool {
        &&& items_view(self.sidebar_items@) == file_tree(files_info(self.file_diffs@))
        &&& self.file_diffs.len() == 0 ==> self.current_file == 0 && self.sidebar_selected == 0
        &&& self.file_diffs.len() > 0 ==> self.current_file < self.file_diffs.len() && is_entry_of(
            items_view(self.sidebar_items@),
            self.sidebar_selected as int,
            self.current_file as int,
        )
        &&& self.search_state.wf()
    }

    /// A session over `file_diffs`: the first file entry of the sidebar is
    /// selected and its file opened at its initial scroll.
    pub fn new(file_diffs: Vec<FileDiff>) -> (r: AppState)
        ensures
            r.wf(),
            r.file_diffs@ == file_diffs@,
            file_diffs.len() > 0 ==> is_first_file_entry(items_view(r.sidebar_items@), r.sidebar_selected as int),
            file_diffs.len() > 0 ==> r.scroll as int == initial_scroll_of(
                file_diffs@[r.current_file as int],
                r.settings.tab_width as nat,
            ),
            file_diffs.len() == 0 ==> r.scroll == 0,
            r.h_scroll == 0,
            r.viewed_files.len() == 0,
            r.diff_fullscreen == DiffFullscreen::Split,
            r.settings.tab_width == crate::types::DEFAULT_TAB_WIDTH,
            !r.needs_reload,
            r.search_state.mode_view() == SearchMode::Inactive,
            r.search_state.query_view().len() == 0,
            r.search_state.matches_view().len() == 0,
            r.pending_key == PendingKey::Idle,
            r.focused_panel == FocusedPanel::DiffView,
            r.show_sidebar,
            r.sidebar_scroll == 0,
            r.sidebar_h_scroll == 0,
    {
        let sidebar_items = build_file_tree(file_diffs.as_slice());
        let settings = DiffViewSettings::default_settings();
        let ghost v = items_view(sidebar_items@);
        let mut current_file: usize = 0;
        let mut sidebar_selected: usize = 0;
        let mut scroll: u16 = 0;
        if file_diffs.len() > 0 {
            proof {
                lemma_one_entry_per_file(file_diffs@, 0);
                lemma_entry_exists(v, 0);
            }
            match first_file_entry(&sidebar_items) {
                Some(x) => {
                    proof {
                        lemma_entry_counted(v, x.0 as int, x.1 as int);
                        lemma_one_entry_per_file(file_diffs@, x.1 as int);
                    }
                    sidebar_selected = x.0;
                    current_file = x.1;
                    scroll = calc_initial_scroll(&file_diffs[current_file], settings.tab_width);
                },
                None => {
                    proof {
                        let p = choose|p: int| is_entry_of(v, p, 0);
                        assert(v[p] is File);
                    }
                },
            }
        }
        AppState {
            file_diffs,
            sidebar_items,
            current_file,
            sidebar_selected,
            sidebar_scroll: 0,
            sidebar_h_scroll: 0,
            scroll,
            h_scroll: 0,
            focused_panel: FocusedPanel::DiffView,
            viewed_files: Vec::new(),
            show_sidebar: true,
            settings,
            diff_fullscreen: DiffFullscreen::Split,
            search_state: SearchState::new(),
            pending_key: PendingKey::Idle,
            needs_reload: false,
        }
    }

    /// Opens file `file_index`: both panels shown, its initial scroll, no
    /// horizontal scroll, its sidebar entry selected.
    pub fn select_file(&mut self, file_index: usize)
        requires
            old(self).wf(),
            file_index < old(self).file_diffs.len(),
        ensures
            final(self).wf(),
            final(self).current_file == file_index,
            final(self).diff_fullscreen == DiffFullscreen::Split,
            final(self).scroll as int == initial_scroll_of(
                old(self).file_diffs@[file_index as int],
                old(self).settings.tab_width as nat,
            ),
            final(self).h_scroll == 0,
            is_first_entry_of(items_view(final(self).sidebar_items@), final(self).sidebar_selected as int, file_index as int),
            final(self).file_diffs@ == old(self).file_diffs@,
            final(self).sidebar_items@ == old(self).sidebar_items@,
            final(self).viewed_files@ == old(self).viewed_files@,
            final(self).settings == old(self).settings,
            final(self).search_state == old(self).search_state,
            final(self).focused_panel == old(self).focused_panel,
            final(self).show_sidebar == old(self).show_sidebar,
            final(self).needs_reload == old(self).needs_reload,
    {
        proof {
            lemma_one_entry_per_file(self.file_diffs@, file_index as int);
            lemma_entry_exists(items_view(self.sidebar_items@), file_index as int);
        }
        self.current_file = file_index;
        self.diff_fullscreen = DiffFullscreen::Split;
        self.scroll = calc_initial_scroll(&self.file_diffs[file_index], self.settings.tab_width);
        self.h_scroll = 0;
        self.sidebar_selected = find_entry(&self.sidebar_items, file_index);
    }

    /// Replaces the files with `file_diffs`, as when the source is polled
    /// again. The current file is found again by name (else the first file);
    /// its sidebar entry is selected; names in `changed_files` lose their
    /// viewed mark and the others keep it; the scroll stays where it was,
    /// but within the new file; the pending reload is cleared.
    pub fn reload(&mut self, file_diffs: Vec<FileDiff>, changed_files: Option<&Vec<String>>)
        requires
            old(self).wf(),
        ensures
            final(self).wf(),
            final(self).file_diffs@ == file_diffs@,
            // the current file, found again by its name
            ({
                let had = old(self).file_diffs.len() > 0;
                let name = old(self).file_diffs@[old(self).current_file as int].filename@;
                if had && exists|k: int| 0 <= k < file_diffs.len() && #[trigger] file_diffs@[k].filename@ == name {
                    &&& final(self).file_diffs@[final(self).current_file as int].filename@ == name
                    &&& forall|q: int| 0 <= q < final(self).current_file ==> #[trigger] file_diffs@[q].filename@ != name
                } else {
                    final(self).current_file == 0
                }
            }),
            file_diffs.len() > 0 ==> is_first_entry_of(
                items_view(final(self).sidebar_items@),
                final(self).sidebar_selected as int,
                final(self).current_file as int,
            ),
            forall|n: Seq<char>|
                holds_name(final(self).viewed_files@, n) == (holds_name(old(self).viewed_files@, n)
                    && !names_changed(changed_files, n)),
            file_diffs.len() > 0 ==> ({
                let d = file_diffs@[final(self).current_file as int];
                let total = side_by_side(d.old_content@, d.new_content@, old(self).settings.tab_width as nat).len();
                let max = if total >= VIEWPORT_MARGIN { total - VIEWPORT_MARGIN } else { 0 };
                final(self).scroll as int == if (old(self).scroll as int) <= max { old(self).scroll as int } else { max }
            }),
            file_diffs.len() == 0 ==> final(self).scroll == 0,
            final(self).h_scroll == old(self).h_scroll,
            !final(self).needs_reload,
            final(self).settings == old(self).settings,
            final(self).diff_fullscreen == old(self).diff_fullscreen,
            final(self).focused_panel == old(self).focused_panel,
            final(self).show_sidebar == old(self).show_sidebar,
            final(self).search_state == old(self).search_state,
            final(self).pending_key == old(self).pending_key,
            final(self).sidebar_scroll == old(self).sidebar_scroll,
            final(self).sidebar_h_scroll == old(self).sidebar_h_scroll,
    {
        let had = self.file_diffs.len() > 0;
        let old_name: String = if had {
            self.file_diffs[self.current_file].filename.clone()
        } else {
            String::new()
        };
        let ghost name = old_name@;
        let old_scroll = self.scroll;

        // viewed marks: keep those whose name did not change
        let mut kept: Vec<String> = Vec::new();
        let mut k: usize = 0;
        assert(self.viewed_files@.take(0) =~= Seq::<String>::empty());
        while k < self.viewed_files.len()
            invariant
                k <= self.viewed_files.len(),
                forall|n: Seq<char>|
                    #[trigger] holds_name(kept@, n) == (holds_name(self.viewed_files@.take(k as int), n)
                        && !names_changed(changed_files, n)),
            decreases self.viewed_files.len() - k,
        {
            let v = &self.viewed_files[k];
            let drop = match changed_files {
                Some(c) => contains_name(c, v),
                None => false,
            };
            let ghost before = kept@;
            if !drop {
                kept.push(v.clone());
            }
            proof {
                let vs = self.viewed_files@;
                assert(vs.take(k + 1) =~= vs.take(k as int).push(vs[k as int]));
                assert forall|n: Seq<char>|
                    #[trigger] holds_name(kept@, n) == (holds_name(vs.take(k + 1), n)
                        && !names_changed(changed_files, n)) by {
                    lemma_holds_push(vs.take(k as int), vs[k as int], n);
                    lemma_holds_push(before, vs[k as int], n);
                    assert(holds_name(before, n) == (holds_name(vs.take(k as int), n)
                        && !names_changed(changed_files, n)));
                }
            }
            k = k + 1;
        }
        assert(self.viewed_files@.take(k as int) =~= self.viewed_files@);
        self.viewed_files = kept;

        self.file_diffs = file_diffs;
        self.sidebar_items = build_file_tree(self.file_diffs.as_slice());

        // the current file, by name
        let mut cur: usize = 0;
        let mut found = false;
        if had {
            let mut q: usize = 0;
            while q < self.file_diffs.len() && !found
                invariant
                    q <= self.file_diffs.len(),
                    self.file_diffs@ == file_diffs@,
                    old_name@ == name,
                    !found ==> cur == 0,
                    found ==> cur < q && cur < self.file_diffs.len() && file_diffs@[cur as int].filename@ == name,
                    forall|x: int| 0 <= x < q && (!found || x < cur) ==> #[trigger] file_diffs@[x].filename@ != name,
                decreases self.file_diffs.len() - q,
            {
                if self.file_diffs[q].filename == old_name {
                    cur = q;
                    found = true;
                }
                q = q + 1;
            }
            proof {
                if !found {
                    assert(!exists|x: int| 0 <= x < file_diffs.len() && #[trigger] file_diffs@[x].filename@ == name);
                }
            }
        }
        assert(had ==> name == old(self).file_diffs@[old(self).current_file as int].filename@);
        self.current_file = cur;

        if self.file_diffs.len() > 0 {
            proof {
                lemma_one_entry_per_file(self.file_diffs@, cur as int);
                lemma_entry_exists(items_view(self.sidebar_items@), cur as int);
            }
            self.sidebar_selected = find_entry(&self.sidebar_items, cur);
            let d = &self.file_diffs[cur];
            let lines = compute_side_by_side(d.old_content.as_str(), d.new_content.as_str(), self.settings.tab_width);
            assert(crate::diff_algo::lines_view(lines@).len() == lines.len());
            let max_scroll = lines.len().saturating_sub(VIEWPORT_MARGIN);
            self.scroll = if (old_scroll as usize) <= max_scroll {
                old_scroll
            } else {
                max_scroll as u16
            };
        } else {
            self.sidebar_selected = 0;
            self.scroll = 0;
        }
        self.needs_reload = false;
    }

    /// Marks the current file viewed, or unmarks it if it was.
    pub fn toggle_viewed(&mut self)
        requires
            old(self).wf(),
            old(self).file_diffs.len() > 0,
        ensures
            final(self).wf(),
            forall|n: Seq<char>|
                holds_name(final(self).viewed_files@, n) == if n == old(self).file_diffs@[old(
                    self,
                ).current_file as int].filename@ {
                    !holds_name(old(self).viewed_files@, n)
                } else {
                    holds_name(old(self).viewed_files@, n)
                },
            final(self).file_diffs@ == old(self).file_diffs@,
            final(self).current_file == old(self).current_file,
            final(self).scroll == old(self).scroll,
    {
        let name = self.file_diffs[self.current_file].filename.clone();
        if contains_name(&self.viewed_files, &name) {
            let mut kept: Vec<String> = Vec::new();
            let mut k: usize = 0;
            assert(self.viewed_files@.take(0) =~= Seq::<String>::empty());
            while k < self.viewed_files.len()
                invariant
                    k <= self.viewed_files.len(),
                    forall|n: Seq<char>|
                        #[trigger] holds_name(kept@, n) == (holds_name(self.viewed_files@.take(k as int), n)
                            && n != name@),
                decreases self.viewed_files.len() - k,
            {
                let v = &self.viewed_files[k];
                let ghost before = kept@;
                if *v != name {
                    kept.push(v.clone());
                }
                proof {
                    let vs = self.viewed_files@;
                    assert(vs.take(k + 1) =~= vs.take(k as int).push(vs[k as int]));
                    assert forall|n: Seq<char>|
                        #[trigger] holds_name(kept@, n) == (holds_name(vs.take(k + 1), n) && n != name@) by {
                        lemma_holds_push(vs.take(k as int), vs[k as int], n);
                        lemma_holds_push(before, vs[k as int], n);
                    }
                }
                k = k + 1;
            }
            assert(self.viewed_files@.take(k as int) =~= self.viewed_files@);
            self.viewed_files = kept;
        } else {
            let ghost before = self.viewed_files@;
            self.viewed_files.push(name);
            proof {
                assert forall|n: Seq<char>|
                    holds_name(self.viewed_files@, n) == (holds_name(before, n) || n == name@) by {
                    lemma_holds_push(before, name, n);
                }
            }
        }
    }

    /// Whether file `index` is marked viewed.
    pub fn is_viewed(&self, index: usize) -> (r: bool)
        requires
            index < self.file_diffs.len(),
        ensures
            r == holds_name(self.viewed_files@, self.file_diffs@[index as int].filename@),
    {
        contains_name(&self.viewed_files, &self.file_diffs[index].filename)
    }
}

} // verus!
