//! The sidebar: the files of a diff as a tree of directories, flattened.
use vstd::prelude::*;
use crate::text::{chars_of, lemma_split_nonempty, split_on, split_str, views};
use crate::types::{FileDiff, FileStatus};

verus! {

/// Rank of a character in path order: the separator `/` comes first.
pub open spec fn rank(c: char) -> int {
    if c == '/' {
        0
    } else {
        (c as u32) as int + 1
    }
}

/// Path order: lexicographic by `rank`, a proper prefix first. It orders
/// paths as the lexicographic order of their lists of segments does.
pub open spec fn path_lt(x: Seq<char>, y: Seq<char>) -> bool
    decreases x.len(),
{
    if x.len() == 0 {
        y.len() > 0
    } else if y.len() == 0 {
        false
    } else if x[0] != y[0] {
        rank(x[0]) < rank(y[0])
    } else {
        path_lt(x.drop_first(), y.drop_first())
    }
}

/// Whether file `i` comes before file `j`: by path, then by position.
pub open spec fn goes_before(names: Seq<Seq<char>>, i: int, j: int) -> bool {
    path_lt(names[i], names[j]) || (names[i] == names[j] && i < j)
}

/// The first position from `p` on whose file goes after file `i`.
pub open spec fn insert_pos(order: Seq<int>, names: Seq<Seq<char>>, i: int, p: int) -> int
    decreases order.len() - p,
{
    if p < 0 || p >= order.len() {
        order.len() as int
    } else if goes_before(names, i, order[p]) {
        p
    } else {
        insert_pos(order, names, i, p + 1)
    }
}

/// The first `k` files in sorted order, by insertion.
pub open spec fn sorted_upto(names: Seq<Seq<char>>, k: int) -> Seq<int>
    decreases k,
{
    if k <= 0 {
        seq![]
    } else {
        let o = sorted_upto(names, k - 1);
        o.insert(insert_pos(o, names, k - 1, 0), k - 1)
    }
}

/// All files in sorted order.
pub open spec fn sorted_order(names: Seq<Seq<char>>) -> Seq<int> {
    sorted_upto(names, names.len() as int)
}

/// An entry of the sidebar.
pub enum ItemView {
    Directory { name: Seq<char>, depth: int },
    File { index: int, name: Seq<char>, status: FileStatus, depth: int },
}

/// The directories of a path: every segment but the last.
pub open spec fn dirs_of(name: Seq<char>) -> Seq<Seq<char>> {
    split_on(name, '/').drop_last()
}

/// The last segment of a path.
pub open spec fn base_of(name: Seq<char>) -> Seq<char> {
    split_on(name, '/').last()
}

/// The length of the common prefix of `x` and `y`, counting from `c`.
pub open spec fn common_len(x: Seq<Seq<char>>, y: Seq<Seq<char>>, c: int) -> int
    decreases x.len() - c,
{
    if 0 <= c && c < x.len() && c < y.len() && x[c] == y[c] {
        common_len(x, y, c + 1)
    } else {
        c
    }
}

/// The entries that the `k`-th file in `order` adds: the directories of its
/// path that the previous file did not open, then the file itself.
pub open spec fn entries_for(files: Seq<(Seq<char>, FileStatus)>, order: Seq<int>, k: int) -> Seq<ItemView> {
    let f = order[k];
    let dirs = dirs_of(files[f].0);
    let prev = if k == 0 {
        Seq::<Seq<char>>::empty()
    } else {
        dirs_of(files[order[k - 1]].0)
    };
    let c = common_len(prev, dirs, 0);
    Seq::new(
        (dirs.len() - c) as nat,
        |t: int| ItemView::Directory { name: dirs[c + t], depth: c + t },
    ).push(ItemView::File { index: f, name: base_of(files[f].0), status: files[f].1, depth: dirs.len() as int })
}

/// The entries of the first `k` files of `order`.
pub open spec fn tree_upto(files: Seq<(Seq<char>, FileStatus)>, order: Seq<int>, k: int) -> Seq<ItemView>
    decreases k,
{
    if k <= 0 {
        seq![]
    } else {
        tree_upto(files, order, k - 1) + entries_for(files, order, k - 1)
    }
}

pub open spec fn names_of(files: Seq<(Seq<char>, FileStatus)>) -> Seq<Seq<char>> {
    files.map_values(|f: (Seq<char>, FileStatus)| f.0)
}

/// The sidebar of a list of files (path, status): a pre-order walk of their
/// directory tree, each level in path order.
pub open spec fn file_tree(files: Seq<(Seq<char>, FileStatus)>) -> Seq<ItemView> {
    tree_upto(files, sorted_order(names_of(files)), files.len() as int)
}

/// Path and status of each file diff.
pub open spec fn files_info(files: Seq<FileDiff>) -> Seq<(Seq<char>, FileStatus)> {
    files.map_values(|f: FileDiff| (f.filename@, f.status))
}

/// An entry of the sidebar.
#[derive(Clone, Debug, PartialEq, Eq)]
pub enum SidebarItem {
    Directory { name: String, depth: usize },
    File { file_index: usize, name: String, status: FileStatus, depth: usize },
}

impl View for SidebarItem {
    type V = ItemView;

    open spec fn view(&self) -> ItemView {
        match self {
            SidebarItem::Directory { name, depth } => ItemView::Directory {
                name: name@,
                depth: *depth as int,
            },
            SidebarItem::File { file_index, name, status, depth } => ItemView::File {
                index: *file_index as int,
                name: name@,
                status: *status,
                depth: *depth as int,
            },
        }
    }
}

pub open spec fn items_view(v: Seq<SidebarItem>) -> Seq<ItemView> {
    v.map_values(|x: SidebarItem| x@)
}

/// `x` before `y` in path order.
fn path_less(x: &Vec<char>, y: &Vec<char>) -> (r: bool)
    ensures
        r == path_lt(x@, y@),
{
    let mut k: usize = 0;
    assert(x@.skip(0) =~= x@);
    assert(y@.skip(0) =~= y@);
    while k < x.len() && k < y.len() && x[k] == y[k]
        invariant
            k <= x.len(),
            k <= y.len(),
            path_lt(x@, y@) == path_lt(x@.skip(k as int), y@.skip(k as int)),
        decreases x.len() - k,
    {
        assert(x@.skip(k as int).drop_first() =~= x@.skip(k + 1));
        assert(y@.skip(k as int).drop_first() =~= y@.skip(k + 1));
        k = k + 1;
    }
    let ghost xs = x@.skip(k as int);
    let ghost ys = y@.skip(k as int);
    assert(xs.len() == x.len() - k);
    assert(ys.len() == y.len() - k);
    if k == x.len() {
        k < y.len()
    } else if k == y.len() {
        false
    } else {
        assert(xs[0] == x@[k as int] && ys[0] == y@[k as int]);
        let cx = x[k];
        let cy = y[k];
        let rx: u64 = if cx == '/' {
            0
        } else {
            (cx as u32) as u64 + 1
        };
        let ry: u64 = if cy == '/' {
            0
        } else {
            (cy as u32) as u64 + 1
        };
        assert(cx != cy);
        assert(rx as int == rank(cx));
        assert(ry as int == rank(cy));
        rx < ry
    }
}


pub(crate) proof fn lemma_insert_pos_range(order: Seq<int>, names: Seq<Seq<char>>, i: int, p: int)
    requires
        0 <= p <= order.len(),
    ensures
        p <= insert_pos(order, names, i, p) <= order.len(),
    decreases order.len() - p,
{
    if p < order.len() && !goes_before(names, i, order[p]) {
        lemma_insert_pos_range(order, names, i, p + 1);
    }
}

/// The sorted order of the first `k` files holds each of them.
pub(crate) proof fn lemma_sorted_range(names: Seq<Seq<char>>, k: int)
    requires
        0 <= k,
    ensures
        sorted_upto(names, k).len() == k,
        forall|t: int| 0 <= t < k ==> 0 <= #[trigger] sorted_upto(names, k)[t] < k,
    decreases k,
{
    if k > 0 {
        lemma_sorted_range(names, k - 1);
        let o = sorted_upto(names, k - 1);
        lemma_insert_pos_range(o, names, k - 1, 0);
        let p = insert_pos(o, names, k - 1, 0);
        assert forall|t: int| 0 <= t < k implies 0 <= #[trigger] sorted_upto(names, k)[t] < k by {
            if t < p {
                assert(sorted_upto(names, k)[t] == o[t]);
            } else if t > p {
                assert(sorted_upto(names, k)[t] == o[t - 1]);
            }
        }
    }
}

pub open spec fn ints(v: Seq<usize>) -> Seq<int> {
    v.map_values(|x: usize| x as int)
}

fn file_before(files: &[FileDiff], names: &Vec<Vec<char>>, i: usize, j: usize, nm: Ghost<Seq<Seq<char>>>) -> (r: bool)
    requires
        i < files.len(),
        j < files.len(),
        nm@ == names_of(files_info(files@)),
        names.len() == files.len(),
        forall|x: int| 0 <= x < files.len() ==> (#[trigger] names@[x])@ == nm@[x],
    ensures
        r == goes_before(nm@, i as int, j as int),
{
    assert(nm@[i as int] == files@[i as int].filename@);
    assert(nm@[j as int] == files@[j as int].filename@);
    path_less(&names[i], &names[j]) || (files[i].filename == files[j].filename && i < j)
}

/// The positions of `files` in sorted order.
fn sort_files(files: &[FileDiff]) -> (order: Vec<usize>)
    ensures
        ints(order@) == sorted_order(names_of(files_info(files@))),
{
    let ghost nm = names_of(files_info(files@));
    let n = files.len();
    let mut names: Vec<Vec<char>> = Vec::new();
    let mut q: usize = 0;
    while q < n
        invariant
            q <= n,
            n == files.len(),
            nm == names_of(files_info(files@)),
            names.len() == q,
            forall|x: int| 0 <= x < q ==> (#[trigger] names@[x])@ == nm[x],
        decreases n - q,
    {
        names.push(chars_of(files[q].filename.as_str()));
        assert(nm[q as int] == files@[q as int].filename@);
        q = q + 1;
    }
    let mut order: Vec<usize> = Vec::new();
    let mut i: usize = 0;
    assert(ints(order@) =~= sorted_upto(nm, 0));
    while i < n
        invariant
            i <= n,
            n == files.len(),
            nm.len() == n,
            nm == names_of(files_info(files@)),
            names.len() == n,
            forall|x: int| 0 <= x < n ==> (#[trigger] names@[x])@ == nm[x],
            ints(order@) == sorted_upto(nm, i as int),
        decreases n - i,
    {
        proof {
            lemma_sorted_range(nm, i as int);
        }
        let ghost o = sorted_upto(nm, i as int);
        let mut p: usize = 0;
        while p < order.len() && !file_before(files, &names, i, order[p], Ghost(nm))
            invariant
                p <= order.len(),
                i < n,
                n == files.len(),
                nm.len() == n,
                nm == names_of(files_info(files@)),
                names.len() == n,
                forall|x: int| 0 <= x < n ==> (#[trigger] names@[x])@ == nm[x],
                o == sorted_upto(nm, i as int),
                ints(order@) == o,
                o.len() == i,
                forall|t: int| 0 <= t < i ==> 0 <= #[trigger] o[t] < i,
                insert_pos(o, nm, i as int, 0) == insert_pos(o, nm, i as int, p as int),
            decreases order.len() - p,
        {
            assert(o[p as int] == order@[p as int] as int);
            p = p + 1;
        }
        proof {
            if p < order.len() {
                assert(o[p as int] == order@[p as int] as int);
            }
        }
        let ghost before = order@;
        order.insert(p, i);
        assert(ints(order@) =~= ints(before).insert(p as int, i as int));
        i = i + 1;
    }
    order
}


proof fn lemma_items_push(before: Seq<SidebarItem>, x: SidebarItem)
    ensures
        items_view(before.push(x)) == items_view(before).push(x@),
{
    assert(items_view(before.push(x)) =~= items_view(before).push(x@));
}

/// Builds the sidebar of `file_diffs`: directories and files in a pre-order
/// walk, each level in path order, one file entry per file diff.
pub fn build_file_tree(file_diffs: &[FileDiff]) -> (r: Vec<SidebarItem>)
    ensures
        items_view(r@) == file_tree(files_info(file_diffs@)),
{
    let ghost fi = files_info(file_diffs@);
    let ghost nm = names_of(fi);
    let n = file_diffs.len();
    let order = sort_files(file_diffs);
    let ghost o = sorted_order(nm);
    proof {
        lemma_sorted_range(nm, n as int);
        assert(nm.len() == n);
    }
    let mut out: Vec<SidebarItem> = Vec::new();
    let mut prev: Vec<String> = Vec::new();
    let mut prev_dirs: usize = 0;
    let mut k: usize = 0;
    while k < n
        invariant
            k <= n,
            n == file_diffs.len(),
            fi == files_info(file_diffs@),
            nm == names_of(fi),
            o == sorted_order(nm),
            ints(order@) == o,
            o.len() == n,
            forall|t: int| 0 <= t < n ==> 0 <= #[trigger] o[t] < n,
            items_view(out@) == tree_upto(fi, o, k as int),
            k > 0 ==> views(prev@) == split_on(fi[o[k - 1]].0, '/'),
            k > 0 ==> prev_dirs + 1 == prev.len(),
            k == 0 ==> prev_dirs == 0,
        decreases n - k,
    {
        let f = order[k];
        assert(o[k as int] == f as int);
        assert(fi[f as int].0 == file_diffs@[f as int].filename@);
        assert(fi[f as int].1 == file_diffs@[f as int].status);
        let segs = split_str(file_diffs[f].filename.as_str(), '/');
        let ghost name = fi[f as int].0;
        let ghost dirs = dirs_of(name);
        let ghost pdirs = if k == 0 {
            Seq::<Seq<char>>::empty()
        } else {
            dirs_of(fi[o[k - 1]].0)
        };
        proof {
            lemma_split_nonempty(name, '/');
            assert(views(segs@).len() == segs.len());
            if k > 0 {
                assert(views(prev@).len() == prev.len());
            }
        }
        let nd = segs.len() - 1;
        assert(dirs.len() == nd);
        assert(pdirs.len() == prev_dirs);
        let mut c: usize = 0;
        while c < prev_dirs && c < nd && prev[c] == segs[c]
            invariant
                c <= prev_dirs,
                c <= nd,
                nd + 1 == segs.len(),
                k > 0 ==> prev_dirs + 1 == prev.len(),
                k == 0 ==> prev_dirs == 0,
                k > 0 ==> views(prev@) == split_on(fi[o[k - 1]].0, '/'),
                views(segs@) == split_on(name, '/'),
                dirs == dirs_of(name),
                pdirs == (if k == 0 {
                    Seq::<Seq<char>>::empty()
                } else {
                    dirs_of(fi[o[k - 1]].0)
                }),
                pdirs.len() == prev_dirs,
                dirs.len() == nd,
                common_len(pdirs, dirs, 0) == common_len(pdirs, dirs, c as int),
            decreases nd - c,
        {
            assert(pdirs[c as int] == prev@[c as int]@);
            assert(dirs[c as int] == segs@[c as int]@);
            c = c + 1;
        }
        proof {
            if c < prev_dirs && c < nd {
                assert(pdirs[c as int] == prev@[c as int]@);
                assert(dirs[c as int] == segs@[c as int]@);
            }
            assert(common_len(pdirs, dirs, c as int) == c);
        }
        let ghost base = items_view(out@);
        let mut t: usize = c;
        assert(items_view(out@) =~= base + Seq::new(
            (t - c) as nat,
            |x: int| ItemView::Directory { name: dirs[c + x], depth: c + x },
        ));
        while t < nd
            invariant
                c <= t <= nd,
                nd + 1 == segs.len(),
                views(segs@) == split_on(name, '/'),
                dirs == dirs_of(name),
                dirs.len() == nd,
                items_view(out@) == base + Seq::new(
                    (t - c) as nat,
                    |x: int| ItemView::Directory { name: dirs[c + x], depth: c + x },
                ),
            decreases nd - t,
        {
            let item = SidebarItem::Directory { name: segs[t].clone(), depth: t };
            assert(dirs[t as int] == segs@[t as int]@);
            let ghost before = out@;
            out.push(item);
            proof {
                lemma_items_push(before, item);
                assert(items_view(out@) =~= base + Seq::new(
                    (t + 1 - c) as nat,
                    |x: int| ItemView::Directory { name: dirs[c + x], depth: c + x },
                ));
            }
            t = t + 1;
        }
        let item = SidebarItem::File {
            file_index: f,
            name: segs[nd].clone(),
            status: file_diffs[f].status,
            depth: nd,
        };
        assert(base_of(name) == segs@[nd as int]@);
        let ghost before = out@;
        out.push(item);
        proof {
            lemma_items_push(before, item);
            assert(entries_for(fi, o, k as int) =~= Seq::new(
                (nd - c) as nat,
                |x: int| ItemView::Directory { name: dirs[c + x], depth: c + x },
            ).push(item@));
            assert(tree_upto(fi, o, k + 1) == tree_upto(fi, o, k as int) + entries_for(fi, o, k as int));
            assert(items_view(out@) =~= tree_upto(fi, o, k + 1));
        }
        prev = segs;
        prev_dirs = nd;
        k = k + 1;
    }
    out
}

} // verus!
