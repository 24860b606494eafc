//! Side-by-side alignment of two texts and the hunks of an alignment.
use vstd::prelude::*;
use crate::text::{expand_tabs, expand_tabs_str, lines_of, split_lines, views};
use crate::types::ChangeType;

verus! {

/// One step of an edit script over two line sequences (indexes from 0).
pub enum Op {
    Same(int, int),
    Del(int),
    Ins(int),
}

/// Length of a longest common subsequence of `a[i..]` and `b[j..]`.
pub open spec fn lcs(a: Seq<Seq<char>>, b: Seq<Seq<char>>, i: int, j: int) -> nat
    decreases (if i < a.len() { a.len() - i } else { 0 }) + (if j < b.len() { b.len() - j } else { 0 }),
{
    if i >= a.len() || j >= b.len() {
        0
    } else if a[i] == b[j] {
        1 + lcs(a, b, i + 1, j + 1)
    } else {
        let x = lcs(a, b, i + 1, j);
        let y = lcs(a, b, i, j + 1);
        if x >= y {
            x
        } else {
            y
        }
    }
}

/// The edit script from `a[i..]` to `b[j..]` that keeps a longest common
/// subsequence, taking a common line as soon as it is offered and, when two
/// choices keep equally much, deleting before inserting.
pub open spec fn script(a: Seq<Seq<char>>, b: Seq<Seq<char>>, i: int, j: int) -> Seq<Op>
    decreases (if i < a.len() { a.len() - i } else { 0 }) + (if j < b.len() { b.len() - j } else { 0 }),
{
    if i >= a.len() {
        if j >= b.len() {
            seq![]
        } else {
            seq![Op::Ins(j)] + script(a, b, i, j + 1)
        }
    } else if j >= b.len() {
        seq![Op::Del(i)] + script(a, b, i + 1, j)
    } else if a[i] == b[j] {
        seq![Op::Same(i, j)] + script(a, b, i + 1, j + 1)
    } else if lcs(a, b, i + 1, j) >= lcs(a, b, i, j + 1) {
        seq![Op::Del(i)] + script(a, b, i + 1, j)
    } else {
        seq![Op::Ins(j)] + script(a, b, i, j + 1)
    }
}

/// A row of an alignment, by line indexes.
pub struct Row {
    pub old: Option<int>,
    pub new: Option<int>,
    pub change: ChangeType,
}

/// Number of deletions in a row from position `k` of `ops`.
pub open spec fn dels_from(ops: Seq<Op>, k: int) -> nat
    decreases (if k < ops.len() { ops.len() - k } else { 0 }),
{
    if 0 <= k < ops.len() && ops[k] is Del {
        1 + dels_from(ops, k + 1)
    } else {
        0
    }
}

/// Number of insertions in a row from position `k` of `ops`.
pub open spec fn ins_from(ops: Seq<Op>, k: int) -> nat
    decreases (if k < ops.len() { ops.len() - k } else { 0 }),
{
    if 0 <= k < ops.len() && ops[k] is Ins {
        1 + ins_from(ops, k + 1)
    } else {
        0
    }
}

pub open spec fn op_old(o: Op) -> int {
    match o {
        Op::Same(i, _) => i,
        Op::Del(i) => i,
        Op::Ins(_) => 0,
    }
}

pub open spec fn op_new(o: Op) -> int {
    match o {
        Op::Same(_, j) => j,
        Op::Del(_) => 0,
        Op::Ins(j) => j,
    }
}

/// The rows of a run of `d` deletions at `k` followed by `e` insertions:
/// paired in order as modifications, the surplus left as it is.
pub open spec fn block(ops: Seq<Op>, k: int, d: nat, e: nat) -> Seq<Row> {
    Seq::new(
        if d >= e { d } else { e },
        |t: int|
            if t < d && t < e {
                Row {
                    old: Some(op_old(ops[k + t])),
                    new: Some(op_new(ops[k + d + t])),
                    change: ChangeType::Modified,
                }
            } else if t < d {
                Row { old: Some(op_old(ops[k + t])), new: None, change: ChangeType::Delete }
            } else {
                Row { old: None, new: Some(op_new(ops[k + d + t])), change: ChangeType::Insert }
            },
    )
}

/// The rows of `ops[k..]`.
pub open spec fn rows_from(ops: Seq<Op>, k: int) -> Seq<Row>
    decreases (if k < ops.len() { ops.len() - k } else { 0 }),
{
    if k < 0 || k >= ops.len() {
        seq![]
    } else {
        match ops[k] {
            Op::Same(i, j) => seq![Row { old: Some(i), new: Some(j), change: ChangeType::Equal }]
                + rows_from(ops, k + 1),
            Op::Ins(j) => seq![Row { old: None, new: Some(j), change: ChangeType::Insert }]
                + rows_from(ops, k + 1),
            Op::Del(_) => {
                let d = dels_from(ops, k);
                let e = ins_from(ops, k + d);
                block(ops, k, d, e) + rows_from(ops, k + d + e)
            },
        }
    }
}

/// What a row of the alignment shows: on each side a line number (from 1)
/// and the line's text with tabs expanded.
pub struct LineView {
    pub old_line: Option<(int, Seq<char>)>,
    pub new_line: Option<(int, Seq<char>)>,
    pub change: ChangeType,
}

pub open spec fn render(r: Row, ea: Seq<Seq<char>>, eb: Seq<Seq<char>>) -> LineView {
    LineView {
        old_line: match r.old {
            Some(i) => Some((i + 1, ea[i])),
            None => None,
        },
        new_line: match r.new {
            Some(j) => Some((j + 1, eb[j])),
            None => None,
        },
        change: r.change,
    }
}

/// Each row rendered against the expanded lines of both sides.
pub open spec fn render_rows(rows: Seq<Row>, ea: Seq<Seq<char>>, eb: Seq<Seq<char>>) -> Seq<LineView> {
    rows.map_values(|r: Row| render(r, ea, eb))
}

/// Each line of `a` with tabs expanded to `w` spaces.
pub open spec fn expanded(a: Seq<Seq<char>>, w: nat) -> Seq<Seq<char>> {
    a.map_values(|l: Seq<char>| expand_tabs(l, w))
}

/// The side-by-side alignment of two texts: tabs are expanded first, and
/// the expanded lines are compared.
pub open spec fn side_by_side(old: Seq<char>, new: Seq<char>, w: nat) -> Seq<LineView> {
    let ea = expanded(lines_of(old), w);
    let eb = expanded(lines_of(new), w);
    render_rows(rows_from(script(ea, eb, 0, 0), 0), ea, eb)
}

/// One row of a side-by-side alignment.
#[derive(Clone, Debug, PartialEq, Eq)]
pub struct DiffLine {
    pub old_line: Option<(usize, String)>,
    pub new_line: Option<(usize, String)>,
    pub change_type: ChangeType,
}

impl View for DiffLine {
    type V = LineView;

    open spec fn view(&self) -> LineView {
        LineView {
            old_line: match self.old_line {
                Some(p) => Some((p.0 as int, p.1@)),
                None => None,
            },
            new_line: match self.new_line {
                Some(p) => Some((p.0 as int, p.1@)),
                None => None,
            },
            change: self.change_type,
        }
    }
}

pub open spec fn lines_view(v: Seq<DiffLine>) -> Seq<LineView> {
    v.map_values(|d: DiffLine| d@)
}

/// Whether row `i` opens a run of changed rows.
pub open spec fn is_hunk_start(v: Seq<LineView>, i: int) -> bool {
    &&& 0 <= i < v.len()
    &&& v[i].change != ChangeType::Equal
    &&& (i == 0 || v[i - 1].change == ChangeType::Equal)
}

/// The hunk starts among the first `k` rows, ascending.
pub open spec fn hunk_starts_upto(v: Seq<LineView>, k: int) -> Seq<int>
    decreases k,
{
    if k <= 0 {
        seq![]
    } else {
        let p = hunk_starts_upto(v, k - 1);
        if is_hunk_start(v, k - 1) {
            p.push(k - 1)
        } else {
            p
        }
    }
}

/// The start of every maximal run of changed rows, ascending.
pub open spec fn hunk_starts(v: Seq<LineView>) -> Seq<int> {
    hunk_starts_upto(v, v.len() as int)
}

/// The indexes of the rows of `lines` that open a run of changed rows.
pub fn find_hunk_starts(lines: &[DiffLine]) -> (r: Vec<usize>)
    ensures
        r@.map_values(|x: usize| x as int) == hunk_starts(lines_view(lines@)),
{
    let ghost v = lines_view(lines@);
    let mut r: Vec<usize> = Vec::new();
    let mut k: usize = 0;
    while k < lines.len()
        invariant
            k <= lines.len(),
            v == lines_view(lines@),
            r@.map_values(|x: usize| x as int) == hunk_starts_upto(v, k as int),
        decreases lines.len() - k,
    {
        let starts = lines[k].change_type != ChangeType::Equal && (k == 0 || lines[k
            - 1].change_type == ChangeType::Equal);
        let ghost before = r@;
        if starts {
            r.push(k);
            assert(r@.map_values(|x: usize| x as int) == before.map_values(|x: usize| x as int).push(
                k as int,
            ));
        }
        k = k + 1;
    }
    r
}


/// An edit step, as the alignment computes it.
#[derive(Clone, Copy, Debug, PartialEq, Eq, Structural)]
enum Edit {
    Same(usize, usize),
    Del(usize),
    Ins(usize),
}

impl View for Edit {
    type V = Op;

    closed spec fn view(&self) -> Op {
        match *self {
            Edit::Same(i, j) => Op::Same(i as int, j as int),
            Edit::Del(i) => Op::Del(i as int),
            Edit::Ins(j) => Op::Ins(j as int),
        }
    }
}

spec fn edits_view(v: Seq<Edit>) -> Seq<Op> {
    v.map_values(|e: Edit| e@)
}

proof fn lemma_lcs_bound(a: Seq<Seq<char>>, b: Seq<Seq<char>>, i: int, j: int)
    requires
        0 <= i <= a.len(),
        0 <= j <= b.len(),
    ensures
        lcs(a, b, i, j) <= a.len() - i,
    decreases a.len() - i + b.len() - j,
{
    if i < a.len() && j < b.len() {
        lemma_lcs_bound(a, b, i + 1, j + 1);
        lemma_lcs_bound(a, b, i + 1, j);
        lemma_lcs_bound(a, b, i, j + 1);
    }
}

/// Every step of `script(a, b, i, j)` names lines of `a[i..]` and `b[j..]`.
proof fn lemma_script_in_range(a: Seq<Seq<char>>, b: Seq<Seq<char>>, i: int, j: int)
    requires
        0 <= i <= a.len(),
        0 <= j <= b.len(),
    ensures
        forall|k: int|
            0 <= k < script(a, b, i, j).len() ==> match #[trigger] script(a, b, i, j)[k] {
                Op::Same(x, y) => i <= x < a.len() && j <= y < b.len(),
                Op::Del(x) => i <= x < a.len(),
                Op::Ins(y) => j <= y < b.len(),
            },
    decreases a.len() - i + b.len() - j,
{
    if i >= a.len() {
        if j < b.len() {
            lemma_script_in_range(a, b, i, j + 1);
        }
    } else if j >= b.len() {
        lemma_script_in_range(a, b, i + 1, j);
    } else if a[i] == b[j] {
        lemma_script_in_range(a, b, i + 1, j + 1);
    } else if lcs(a, b, i + 1, j) >= lcs(a, b, i, j + 1) {
        lemma_script_in_range(a, b, i + 1, j);
    } else {
        lemma_script_in_range(a, b, i, j + 1);
    }
}

/// `t[i][j]` holds `lcs(a, b, i, j)` for every line pair.
spec fn table_ok(a: Seq<Seq<char>>, b: Seq<Seq<char>>, t: Seq<Vec<usize>>) -> bool {
    &&& t.len() == a.len()
    &&& forall|i: int| 0 <= i < a.len() ==> #[trigger] t[i]@.len() == b.len()
    &&& forall|i: int, j: int|
        0 <= i < a.len() && 0 <= j < b.len() ==> #[trigger] t[i]@[j] == lcs(a, b, i, j)
}

fn table_at(t: &Vec<Vec<usize>>, i: usize, j: usize, ga: Ghost<Seq<Seq<char>>>, gb: Ghost<Seq<Seq<char>>>) -> (r: usize)
    requires
        table_ok(ga@, gb@, t@),
        i <= ga@.len(),
        j <= gb@.len(),
    ensures
        r == lcs(ga@, gb@, i as int, j as int),
{
    if i < t.len() && j < t[i].len() {
        t[i][j]
    } else {
        0
    }
}

fn lcs_table(a: &Vec<String>, b: &Vec<String>) -> (t: Vec<Vec<usize>>)
    ensures
        table_ok(views(a@), views(b@), t@),
{
    let ghost ga = views(a@);
    let ghost gb = views(b@);
    let n = a.len();
    let m = b.len();
    let mut t: Vec<Vec<usize>> = Vec::new();
    let mut q: usize = 0;
    while q < n
        invariant
            q <= n,
            t.len() == q,
        decreases n - q,
    {
        t.push(Vec::new());
        q = q + 1;
    }
    let mut ii: usize = n;
    while ii > 0
        invariant
            ii <= n,
            n == a.len(),
            m == b.len(),
            ga == views(a@),
            gb == views(b@),
            t.len() == n,
            forall|x: int| ii <= x < n ==> #[trigger] t@[x]@.len() == m,
            forall|x: int, y: int|
                ii <= x < n && 0 <= y < m ==> #[trigger] t@[x]@[y] == lcs(ga, gb, x, y),
        decreases ii,
    {
        let i = ii - 1;
        let mut row: Vec<usize> = Vec::new();
        let mut z: usize = 0;
        while z < m
            invariant
                z <= m,
                row.len() == z,
            decreases m - z,
        {
            row.push(0);
            z = z + 1;
        }
        let mut jj: usize = m;
        while jj > 0
            invariant
                jj <= m,
                i < n,
                i + 1 == ii,
                n == a.len(),
                m == b.len(),
                ga == views(a@),
                gb == views(b@),
                row.len() == m,
                t.len() == n,
                forall|x: int| ii <= x < n ==> #[trigger] t@[x]@.len() == m,
                forall|x: int, y: int|
                    ii <= x < n && 0 <= y < m ==> #[trigger] t@[x]@[y] == lcs(ga, gb, x, y),
                forall|y: int| jj <= y < m ==> #[trigger] row@[y] == lcs(ga, gb, i as int, y),
            decreases jj,
        {
            let j = jj - 1;
            let below_next: usize = if i + 1 < n && j + 1 < m {
                t[i + 1][j + 1]
            } else {
                0
            };
            let below: usize = if i + 1 < n {
                t[i + 1][j]
            } else {
                0
            };
            let next: usize = if j + 1 < m {
                row[j + 1]
            } else {
                0
            };
            let v: usize = if a[i] == b[j] {
                proof {
                    lemma_lcs_bound(ga, gb, i + 1, j + 1);
                }
                1 + below_next
            } else if below >= next {
                below
            } else {
                next
            };
            proof {
                assert(ga[i as int] == a@[i as int]@);
                assert(gb[j as int] == b@[j as int]@);
                assert(below_next == lcs(ga, gb, i + 1, j + 1));
                assert(below == lcs(ga, gb, i + 1, j as int));
                assert(next == lcs(ga, gb, i as int, j + 1));
                assert(v == lcs(ga, gb, i as int, j as int));
            }
            row[j] = v;
            jj = j;
        }
        t[i] = row;
        ii = i;
    }
    t
}

/// The edit script of `script(a, b, 0, 0)`, read off the table.
fn walk(a: &Vec<String>, b: &Vec<String>, t: &Vec<Vec<usize>>) -> (ops: Vec<Edit>)
    requires
        table_ok(views(a@), views(b@), t@),
    ensures
        edits_view(ops@) == script(views(a@), views(b@), 0, 0),
{
    let ghost ga = views(a@);
    let ghost gb = views(b@);
    let n = a.len();
    let m = b.len();
    let mut ops: Vec<Edit> = Vec::new();
    let mut i: usize = 0;
    let mut j: usize = 0;
    while i < n || j < m
        invariant
            i <= n,
            j <= m,
            n == a.len(),
            m == b.len(),
            ga == views(a@),
            gb == views(b@),
            table_ok(ga, gb, t@),
            script(ga, gb, 0, 0) == edits_view(ops@) + script(ga, gb, i as int, j as int),
        decreases (n - i) + (m - j),
    {
        let ghost before = ops@;
        let e = if i >= n {
            Edit::Ins(j)
        } else if j >= m {
            Edit::Del(i)
        } else if a[i] == b[j] {
            Edit::Same(i, j)
        } else if table_at(t, i + 1, j, Ghost(ga), Ghost(gb)) >= table_at(
            t,
            i,
            j + 1,
            Ghost(ga),
            Ghost(gb),
        ) {
            Edit::Del(i)
        } else {
            Edit::Ins(j)
        };
        ops.push(e);
        assert(edits_view(ops@) == edits_view(before).push(e@));
        match e {
            Edit::Same(_, _) => {
                i = i + 1;
                j = j + 1;
            },
            Edit::Del(_) => {
                i = i + 1;
            },
            Edit::Ins(_) => {
                j = j + 1;
            },
        }
    }
    ops
}


spec fn ops_in_range(e: Seq<Op>, na: int, nb: int) -> bool {
    forall|k: int|
        0 <= k < e.len() ==> match #[trigger] e[k] {
            Op::Same(x, y) => 0 <= x < na && 0 <= y < nb,
            Op::Del(x) => 0 <= x < na,
            Op::Ins(y) => 0 <= y < nb,
        }
}

fn edit_old(e: Edit) -> (r: usize)
    ensures
        r == op_old(e@),
{
    match e {
        Edit::Same(i, _) => i,
        Edit::Del(i) => i,
        Edit::Ins(_) => 0,
    }
}

fn edit_new(e: Edit) -> (r: usize)
    ensures
        r == op_new(e@),
{
    match e {
        Edit::Same(_, j) => j,
        Edit::Del(_) => 0,
        Edit::Ins(j) => j,
    }
}

fn side_line(n: usize, texts: &Vec<String>) -> (r: Option<(usize, String)>)
    requires
        n < texts.len(),
    ensures
        r matches Some(p) && p.0 == n + 1 && p.1@ == texts@[n as int]@,
{
    Some((n + 1, texts[n].clone()))
}

/// The rows of `ops`, each with its line numbers and texts.
fn emit(ops: &Vec<Edit>, ea: &Vec<String>, eb: &Vec<String>) -> (r: Vec<DiffLine>)
    requires
        ops_in_range(edits_view(ops@), ea.len() as int, eb.len() as int),
    ensures
        lines_view(r@) == render_rows(rows_from(edits_view(ops@), 0), views(ea@), views(eb@)),
{
    let ghost e_ops = edits_view(ops@);
    let ghost va = views(ea@);
    let ghost vb = views(eb@);
    let mut out: Vec<DiffLine> = Vec::new();
    let ghost mut done: Seq<Row> = seq![];
    let mut k: usize = 0;
    while k < ops.len()
        invariant
            k <= ops.len(),
            e_ops == edits_view(ops@),
            va == views(ea@),
            vb == views(eb@),
            ops_in_range(e_ops, ea.len() as int, eb.len() as int),
            rows_from(e_ops, 0) == done + rows_from(e_ops, k as int),
            lines_view(out@) == render_rows(done, va, vb),
            forall|x: int| 0 <= x < ea.len() ==> #[trigger] va[x] == ea@[x]@,
            forall|x: int| 0 <= x < eb.len() ==> #[trigger] vb[x] == eb@[x]@,
        decreases ops.len() - k,
    {
        let cur = ops[k];
        assert(e_ops[k as int] == cur@);
        match cur {
            Edit::Same(i, j) => {
                let line = DiffLine {
                    old_line: side_line(i, ea),
                    new_line: side_line(j, eb),
                    change_type: ChangeType::Equal,
                };
                let ghost row = Row { old: Some(i as int), new: Some(j as int), change: ChangeType::Equal };
                proof {
                    assert(rows_from(e_ops, k as int) == seq![row] + rows_from(e_ops, k + 1));
                    assert(done + rows_from(e_ops, k as int) == done.push(row) + rows_from(e_ops, k + 1));
                }
                let ghost before = out@;
                proof {
                    assert(line@ == render(row, va, vb));
                }
                out.push(line);
                proof {
                    assert(out@ == before.push(line));
                    lemma_render_push(before, line, done, row, va, vb);
                    done = done.push(row);
                }
                k = k + 1;
            },
            Edit::Ins(j) => {
                let line = DiffLine {
                    old_line: None,
                    new_line: side_line(j, eb),
                    change_type: ChangeType::Insert,
                };
                let ghost row = Row { old: None, new: Some(j as int), change: ChangeType::Insert };
                proof {
                    assert(rows_from(e_ops, k as int) == seq![row] + rows_from(e_ops, k + 1));
                    assert(done + rows_from(e_ops, k as int) == done.push(row) + rows_from(e_ops, k + 1));
                }
                let ghost before = out@;
                proof {
                    assert(line@ == render(row, va, vb));
                }
                out.push(line);
                proof {
                    assert(out@ == before.push(line));
                    lemma_render_push(before, line, done, row, va, vb);
                    done = done.push(row);
                }
                k = k + 1;
            },
            Edit::Del(_) => {
                let mut d: usize = 0;
                while k + d < ops.len() && is_del(ops[k + d])
                    invariant
                        k + d <= ops.len(),
                        e_ops == edits_view(ops@),
                        dels_from(e_ops, k as int) == d + dels_from(e_ops, (k + d) as int),
                        forall|t: int| 0 <= t < d ==> #[trigger] e_ops[k + t] is Del,
                    decreases ops.len() - k - d,
                {
                    assert(e_ops[k + d] == ops@[k + d]@);
                    d = d + 1;
                }
                assert(dels_from(e_ops, (k + d) as int) == 0) by {
                    if k + d < ops.len() {
                        assert(e_ops[k + d] == ops@[k + d]@);
                    }
                }
                let mut e: usize = 0;
                while k + d + e < ops.len() && is_ins(ops[k + d + e])
                    invariant
                        k + d + e <= ops.len(),
                        e_ops == edits_view(ops@),
                        ins_from(e_ops, (k + d) as int) == e + ins_from(e_ops, (k + d + e) as int),
                        forall|t: int| 0 <= t < e ==> #[trigger] e_ops[k + d + t] is Ins,
                    decreases ops.len() - k - d - e,
                {
                    assert(e_ops[k + d + e] == ops@[k + d + e]@);
                    e = e + 1;
                }
                assert(ins_from(e_ops, (k + d + e) as int) == 0) by {
                    if k + d + e < ops.len() {
                        assert(e_ops[k + d + e] == ops@[k + d + e]@);
                    }
                }
                let ghost blk = block(e_ops, k as int, d as nat, e as nat);
                proof {
                    assert(rows_from(e_ops, k as int) == blk + rows_from(e_ops, (k + d + e) as int));
                }
                let total: usize = if d >= e {
                    d
                } else {
                    e
                };
                let mut t: usize = 0;
                while t < total
                    invariant
                        t <= total,
                        total == (if d >= e { d } else { e }),
                        k + d + e <= ops.len(),
                        e_ops == edits_view(ops@),
                        va == views(ea@),
                        vb == views(eb@),
                        ops_in_range(e_ops, ea.len() as int, eb.len() as int),
                        blk == block(e_ops, k as int, d as nat, e as nat),
                        forall|q: int| 0 <= q < d ==> #[trigger] e_ops[k + q] is Del,
                        forall|q: int| 0 <= q < e ==> #[trigger] e_ops[k + d + q] is Ins,
                        forall|x: int| 0 <= x < ea.len() ==> #[trigger] va[x] == ea@[x]@,
                        forall|x: int| 0 <= x < eb.len() ==> #[trigger] vb[x] == eb@[x]@,
                        lines_view(out@) == render_rows(done + blk.take(t as int), va, vb),
                    decreases total - t,
                {
                    let ghost before = out@;
                    let line = if t < d && t < e {
                        assert(e_ops[k + t] == ops@[k + t]@);
                        assert(e_ops[k + d + t] == ops@[k + d + t]@);
                        let i = edit_old(ops[k + t]);
                        let j = edit_new(ops[k + d + t]);
                        DiffLine {
                            old_line: side_line(i, ea),
                            new_line: side_line(j, eb),
                            change_type: ChangeType::Modified,
                        }
                    } else if t < d {
                        assert(e_ops[k + t] == ops@[k + t]@);
                        let i = edit_old(ops[k + t]);
                        DiffLine {
                            old_line: side_line(i, ea),
                            new_line: None,
                            change_type: ChangeType::Delete,
                        }
                    } else {
                        assert(e_ops[k + d + t] == ops@[k + d + t]@);
                        let j = edit_new(ops[k + d + t]);
                        DiffLine {
                            old_line: None,
                            new_line: side_line(j, eb),
                            change_type: ChangeType::Insert,
                        }
                    };
                    out.push(line);
                    proof {
                        assert(out@ == before.push(line));
                        assert(line@ == render(blk[t as int], va, vb));
                        assert((done + blk.take(t + 1)) =~= (done + blk.take(t as int)).push(blk[t as int]));
                        lemma_render_push(before, line, done + blk.take(t as int), blk[t as int], va, vb);
                    }
                    t = t + 1;
                }
                proof {
                    assert(blk.take(total as int) == blk);
                    assert(done + rows_from(e_ops, k as int) == (done + blk) + rows_from(e_ops, (k + d + e) as int));
                    done = done + blk;
                }
                k = k + d + e;
            },
        }
    }
    assert(rows_from(e_ops, k as int) == Seq::<Row>::empty());
    assert(done + Seq::<Row>::empty() == done);
    out
}

proof fn lemma_render_push(
    before: Seq<DiffLine>,
    line: DiffLine,
    done: Seq<Row>,
    row: Row,
    va: Seq<Seq<char>>,
    vb: Seq<Seq<char>>,
)
    requires
        lines_view(before) == render_rows(done, va, vb),
        line@ == render(row, va, vb),
    ensures
        lines_view(before.push(line)) == render_rows(done.push(row), va, vb),
{
    let l = lines_view(before.push(line));
    let r = render_rows(done.push(row), va, vb);
    assert(lines_view(before).len() == before.len());
    assert(render_rows(done, va, vb).len() == done.len());
    assert(before.len() == done.len());
    assert forall|k: int| 0 <= k < l.len() implies l[k] == r[k] by {
        assert(l[k] == before.push(line)[k]@);
        assert(r[k] == render(done.push(row)[k], va, vb));
        if k < before.len() {
            assert(before.push(line)[k] == before[k]);
            assert(done.push(row)[k] == done[k]);
            assert(lines_view(before)[k] == render_rows(done, va, vb)[k]);
            assert(lines_view(before)[k] == before[k]@);
            assert(render_rows(done, va, vb)[k] == render(done[k], va, vb));
        } else {
            assert(before.push(line)[k] == line);
            assert(done.push(row)[k] == row);
        }
    }
    assert(l =~= r);
}

fn is_del(e: Edit) -> (r: bool)
    ensures
        r == (e@ is Del),
{
    match e {
        Edit::Del(_) => true,
        _ => false,
    }
}

fn is_ins(e: Edit) -> (r: bool)
    ensures
        r == (e@ is Ins),
{
    match e {
        Edit::Ins(_) => true,
        _ => false,
    }
}


fn expand_all(v: &Vec<String>, w: usize) -> (r: Vec<String>)
    ensures
        views(r@) == expanded(views(v@), w as nat),
{
    let mut r: Vec<String> = Vec::new();
    let mut k: usize = 0;
    while k < v.len()
        invariant
            k <= v.len(),
            views(r@) == expanded(views(v@), w as nat).take(k as int),
        decreases v.len() - k,
    {
        let x = expand_tabs_str(v[k].as_str(), w);
        let ghost before = r@;
        r.push(x);
        proof {
            assert(views(r@) =~= views(before).push(x@));
            assert(expanded(views(v@), w as nat).take(k + 1) =~= expanded(views(v@), w as nat).take(
                k as int,
            ).push(expand_tabs(v@[k as int]@, w as nat)));
        }
        k = k + 1;
    }
    assert(expanded(views(v@), w as nat).take(k as int) =~= expanded(views(v@), w as nat));
    r
}

/// Aligns the lines of `old` and `new` side by side, after expanding tabs
/// to `tab_width` spaces: common lines of a longest common subsequence of
/// the expanded lines face each other, a run of deleted lines and the
/// run of inserted lines right after it are paired in order.
pub fn compute_side_by_side(old: &str, new: &str, tab_width: usize) -> (r: Vec<DiffLine>)
    ensures
        lines_view(r@) == side_by_side(old@, new@, tab_width as nat),
{
    let a = split_lines(old);
    let b = split_lines(new);
    let ea = expand_all(&a, tab_width);
    let eb = expand_all(&b, tab_width);
    let t = lcs_table(&ea, &eb);
    let ops = walk(&ea, &eb, &t);
    proof {
        lemma_script_in_range(views(ea@), views(eb@), 0, 0);
        assert(views(ea@).len() == ea.len());
        assert(views(eb@).len() == eb.len());
        assert(views(a@).len() == a.len());
        assert(views(b@).len() == b.len());
    }
    emit(&ops, &ea, &eb)
}

} // verus!
