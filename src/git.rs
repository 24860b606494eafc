//! What the library makes of git's output: file statuses, the files of a
//! unified diff, and the refs that a comparison reads.
use vstd::prelude::*;
use crate::text::{chars_of, lines_of, push_char, split_lines, string_from, views};
use crate::types::{status_of, FileDiff, FileStatus};

verus! {

/// Unicode white space, as `char::is_whitespace` documents it.
pub open spec fn is_ws(c: char) -> bool {
    let u = c as u32;
    (0x09 <= u && u <= 0x0d) || u == 0x20 || u == 0x85 || u == 0xa0 || u == 0x1680 || (0x2000 <= u
        && u <= 0x200a) || u == 0x2028 || u == 0x2029 || u == 0x202f || u == 0x205f || u == 0x3000
}

/// Whether `c` is white space.
pub fn is_whitespace_char(c: char) -> (r: bool)
    ensures
        r == is_ws(c),
{
    let u = c as u32;
    (0x09 <= u && u <= 0x0d) || u == 0x20 || u == 0x85 || u == 0xa0 || u == 0x1680 || (0x2000 <= u
        && u <= 0x200a) || u == 0x2028 || u == 0x2029 || u == 0x202f || u == 0x205f || u == 0x3000
}

/// Whether `s` holds nothing but white space.
pub open spec fn is_blank(s: Seq<char>) -> bool {
    forall|k: int| 0 <= k < s.len() ==> is_ws(#[trigger] s[k])
}

/// The status of a file whose contents are `old` and `new`: a side that is
/// blank counts as missing.
pub fn determine_file_status(old_content: &str, new_content: &str) -> (r: FileStatus)
    ensures
        r == status_of(is_blank(old_content@), is_blank(new_content@)),
{
    let old_empty = blank(old_content);
    let new_empty = blank(new_content);
    if old_empty && !new_empty {
        FileStatus::Added
    } else if !old_empty && new_empty {
        FileStatus::Deleted
    } else {
        FileStatus::Modified
    }
}

fn blank(s: &str) -> (r: bool)
    ensures
        r == is_blank(s@),
{
    let cs = chars_of(s);
    let mut k: usize = 0;
    while k < cs.len()
        invariant
            k <= cs.len(),
            cs@ == s@,
            forall|x: int| 0 <= x < k ==> is_ws(#[trigger] cs@[x]),
        decreases cs.len() - k,
    {
        if !is_whitespace_char(cs[k]) {
            return false;
        }
        k = k + 1;
    }
    true
}

/// Builds the file diffs of fetched files, each given as (path, old
/// content, new content); the status follows from which content is empty.
pub fn load_file_diffs(fetched: Vec<(String, String, String)>) -> (r: Vec<FileDiff>)
    ensures
        r.len() == fetched.len(),
        forall|k: int|
            0 <= k < r.len() ==> {
                &&& (#[trigger] r@[k]).filename@ == fetched@[k].0@
                &&& r@[k].old_content@ == fetched@[k].1@
                &&& r@[k].new_content@ == fetched@[k].2@
                &&& r@[k].status == status_of(fetched@[k].1@.len() == 0, fetched@[k].2@.len() == 0)
            },
{
    let mut r: Vec<FileDiff> = Vec::new();
    let ghost src = fetched@;
    let mut rest = fetched;
    assert(rest@.skip(0) =~= src);
    while rest.len() > 0
        invariant
            r.len() + rest.len() == src.len(),
            rest@ == src.skip(r.len() as int),
            forall|k: int|
                0 <= k < r.len() ==> {
                    &&& (#[trigger] r@[k]).filename@ == src[k].0@
                    &&& r@[k].old_content@ == src[k].1@
                    &&& r@[k].new_content@ == src[k].2@
                    &&& r@[k].status == status_of(src[k].1@.len() == 0, src[k].2@.len() == 0)
                },
        decreases rest.len(),
    {
        let ghost k = r.len() as int;
        let (filename, old_content, new_content) = rest.remove(0);
        assert((filename, old_content, new_content) == src[k]);
        r.push(FileDiff::new(filename, old_content, new_content));
        assert(rest@ =~= src.skip(k + 1));
    }
    r
}


/// Whether `l` starts with `p`.
pub open spec fn starts_with(l: Seq<char>, p: Seq<char>) -> bool {
    p.len() <= l.len() && l.take(p.len() as int) == p
}

/// The words of `s` (runs of non-white-space), and whether `s` ends inside one.
pub open spec fn words_state(s: Seq<char>) -> (Seq<Seq<char>>, bool)
    decreases s.len(),
{
    if s.len() == 0 {
        (seq![], false)
    } else {
        let (w, inside) = words_state(s.drop_last());
        let c = s.last();
        if is_ws(c) {
            (w, false)
        } else if inside {
            (w.update(w.len() - 1, w.last().push(c)), true)
        } else {
            (w.push(seq![c]), true)
        }
    }
}

/// The words of `s`, as `str::split_whitespace` gives them.
pub open spec fn words(s: Seq<char>) -> Seq<Seq<char>> {
    words_state(s).0
}

/// `t` without a leading `b/`.
pub open spec fn strip_b(t: Seq<char>) -> Seq<char> {
    if starts_with(t, seq!['b', '/']) {
        t.skip(2)
    } else {
        t
    }
}

/// Where the reading of a unified diff stands after some lines.
pub struct DiffParse {
    pub files: Seq<(Seq<char>, Seq<char>, Seq<char>)>,
    pub current: Option<Seq<char>>,
    pub old: Seq<char>,
    pub new: Seq<char>,
    pub in_hunk: bool,
}

pub open spec fn parse_start() -> DiffParse {
    DiffParse { files: seq![], current: None, old: seq![], new: seq![], in_hunk: false }
}

/// The files read so far, with the one being read closed.
pub open spec fn parse_finish(st: DiffParse) -> Seq<(Seq<char>, Seq<char>, Seq<char>)> {
    match st.current {
        Some(f) => st.files.push((f, st.old, st.new)),
        None => st.files,
    }
}

/// Reads one line of a unified diff. `diff --git a/x b/y` closes the file
/// being read and opens `y`; `@@` opens a hunk; inside a hunk a line `-t`
/// adds `t` to the old side, `+t` to the new side, ` t` to both, a line
/// with no marker to both as it stands; `---`, `+++` and `\` lines add
/// nothing.
pub open spec fn parse_step(st: DiffParse, line: Seq<char>) -> DiffParse {
    if starts_with(line, seq!['d', 'i', 'f', 'f', ' ', '-', '-', 'g', 'i', 't']) {
        let w = words(line);
        DiffParse {
            files: parse_finish(st),
            current: if w.len() >= 4 {
                Some(strip_b(w[3]))
            } else {
                None
            },
            old: seq![],
            new: seq![],
            in_hunk: false,
        }
    } else if starts_with(line, seq!['@', '@']) {
        DiffParse { in_hunk: true, ..st }
    } else if st.in_hunk && st.current is Some {
        if starts_with(line, seq!['-']) {
            if starts_with(line, seq!['-', '-', '-']) {
                st
            } else {
                DiffParse { old: st.old + line.skip(1).push('\n'), ..st }
            }
        } else if starts_with(line, seq!['+']) {
            if starts_with(line, seq!['+', '+', '+']) {
                st
            } else {
                DiffParse { new: st.new + line.skip(1).push('\n'), ..st }
            }
        } else if starts_with(line, seq![' ']) {
            DiffParse {
                old: st.old + line.skip(1).push('\n'),
                new: st.new + line.skip(1).push('\n'),
                ..st
            }
        } else if starts_with(line, seq!['\\']) {
            st
        } else {
            DiffParse { old: st.old + line.push('\n'), new: st.new + line.push('\n'), ..st }
        }
    } else {
        st
    }
}

/// The state after the first `k` lines.
pub open spec fn parse_upto(lines: Seq<Seq<char>>, k: int) -> DiffParse
    decreases k,
{
    if k <= 0 {
        parse_start()
    } else {
        parse_step(parse_upto(lines, k - 1), lines[k - 1])
    }
}

/// The files of a unified diff: (path, old content, new content).
pub open spec fn parse_diff(d: Seq<char>) -> Seq<(Seq<char>, Seq<char>, Seq<char>)> {
    let ls = lines_of(d);
    parse_finish(parse_upto(ls, ls.len() as int))
}

/// Whether `r` holds the files `fs`, each with the status its contents give.
pub open spec fn diffs_match(r: Seq<FileDiff>, fs: Seq<(Seq<char>, Seq<char>, Seq<char>)>) -> bool {
    &&& r.len() == fs.len()
    &&& forall|k: int|
        0 <= k < r.len() ==> {
            &&& (#[trigger] r[k]).filename@ == fs[k].0
            &&& r[k].old_content@ == fs[k].1
            &&& r[k].new_content@ == fs[k].2
            &&& r[k].status == status_of(is_blank(fs[k].1), is_blank(fs[k].2))
        }
}

fn starts(cs: &Vec<char>, p: &Vec<char>) -> (r: bool)
    ensures
        r == starts_with(cs@, p@),
{
    if p.len() > cs.len() {
        return false;
    }
    let mut k: usize = 0;
    while k < p.len()
        invariant
            k <= p.len() <= cs.len(),
            forall|x: int| 0 <= x < k ==> cs@[x] == p@[x],
        decreases p.len() - k,
    {
        if cs[k] != p[k] {
            return false;
        }
        k = k + 1;
    }
    assert(cs@.take(p.len() as int) =~= p@);
    true
}

fn append_from(s: &mut String, cs: &Vec<char>, from: usize)
    requires
        from <= cs.len(),
    ensures
        final(s)@ == old(s)@ + cs@.skip(from as int).push('\n'),
{
    let ghost start = s@;
    let mut k: usize = from;
    while k < cs.len()
        invariant
            from <= k <= cs.len(),
            s@ == start + cs@.subrange(from as int, k as int),
        decreases cs.len() - k,
    {
        push_char(s, cs[k]);
        assert(cs@.subrange(from as int, k + 1) =~= cs@.subrange(from as int, k as int).push(cs@[k as int]));
        k = k + 1;
    }
    assert(cs@.subrange(from as int, cs.len() as int) =~= cs@.skip(from as int));
    push_char(s, '\n');
}

/// The fourth word of `cs`, if it has one.
fn fourth_word(cs: &Vec<char>) -> (r: Option<Vec<char>>)
    ensures
        words(cs@).len() >= 4 ==> (r matches Some(w) && w@ == words(cs@)[3]),
        words(cs@).len() < 4 ==> r is None,
{
    let mut count: usize = 0;
    let mut start: usize = 0;
    let mut inside = false;
    let mut found: Option<Vec<char>> = None;
    let mut i: usize = 0;
    while i < cs.len()
        invariant
            i <= cs.len(),
            start <= i,
            words_state(cs@.take(i as int)).1 == inside,
            words_state(cs@.take(i as int)).0.len() == count,
            inside ==> count >= 1 && words_state(cs@.take(i as int)).0.last() == cs@.subrange(start as int, i as int),
            count > 4 || (count == 4 && !inside) ==> (found matches Some(w) && w@ == words_state(cs@.take(i as int)).0[3]),
            count <= i,
            count < 4 || (count == 4 && inside) ==> found is None,
        decreases cs.len() - i,
    {
        let c = cs[i];
        assert(cs@.take(i + 1).drop_last() =~= cs@.take(i as int));
        let ghost prev = words_state(cs@.take(i as int)).0;
        if is_whitespace_char(c) {
            if inside && count == 4 {
                let mut w: Vec<char> = Vec::new();
                let mut k: usize = start;
                while k < i
                    invariant
                        start <= k <= i <= cs.len(),
                        w@ == cs@.subrange(start as int, k as int),
                    decreases i - k,
                {
                    w.push(cs[k]);
                    assert(cs@.subrange(start as int, k + 1) =~= cs@.subrange(start as int, k as int).push(cs@[k as int]));
                    k = k + 1;
                }
                found = Some(w);
            }
            inside = false;
        } else if inside {
            assert(cs@.subrange(start as int, i + 1) =~= cs@.subrange(start as int, i as int).push(c));
        } else {
            count = count + 1;
            start = i;
            inside = true;
            assert(cs@.subrange(start as int, i + 1) =~= seq![c]);
        }
        i = i + 1;
    }
    assert(cs@.take(cs.len() as int) =~= cs@);
    if inside && count == 4 {
        let mut w: Vec<char> = Vec::new();
        let mut k: usize = start;
        while k < cs.len()
            invariant
                start <= k <= cs.len(),
                w@ == cs@.subrange(start as int, k as int),
            decreases cs.len() - k,
        {
            w.push(cs[k]);
            assert(cs@.subrange(start as int, k + 1) =~= cs@.subrange(start as int, k as int).push(cs@[k as int]));
            k = k + 1;
        }
        found = Some(w);
    }
    found
}


fn close_file(files: &mut Vec<FileDiff>, filename: String, old_content: String, new_content: String)
    ensures
        final(files)@.len() == old(files)@.len() + 1,
        forall|k: int| 0 <= k < old(files)@.len() ==> final(files)@[k] == old(files)@[k],
        final(files)@.last().filename@ == filename@,
        final(files)@.last().old_content@ == old_content@,
        final(files)@.last().new_content@ == new_content@,
        final(files)@.last().status == status_of(is_blank(old_content@), is_blank(new_content@)),
{
    let status = determine_file_status(old_content.as_str(), new_content.as_str());
    files.push(FileDiff { filename, old_content, new_content, status });
}

proof fn lemma_match_push(
    r: Seq<FileDiff>,
    fs: Seq<(Seq<char>, Seq<char>, Seq<char>)>,
    x: FileDiff,
    f: (Seq<char>, Seq<char>, Seq<char>),
)
    requires
        diffs_match(r, fs),
        x.filename@ == f.0,
        x.old_content@ == f.1,
        x.new_content@ == f.2,
        x.status == status_of(is_blank(f.1), is_blank(f.2)),
    ensures
        diffs_match(r.push(x), fs.push(f)),
{
    assert forall|k: int| 0 <= k < r.len() + 1 implies {
        &&& (#[trigger] r.push(x)[k]).filename@ == fs.push(f)[k].0
        &&& r.push(x)[k].old_content@ == fs.push(f)[k].1
        &&& r.push(x)[k].new_content@ == fs.push(f)[k].2
        &&& r.push(x)[k].status == status_of(is_blank(fs.push(f)[k].1), is_blank(fs.push(f)[k].2))
    } by {
        if k < r.len() {
            assert(r.push(x)[k] == r[k]);
            assert(fs.push(f)[k] == fs[k]);
        }
    }
}

/// Reads the files of a unified diff (as `gh pr diff` prints it): see
/// `parse_step`. Each file's status follows from which side is blank.
pub fn parse_unified_diff(diff: &str) -> (r: Vec<FileDiff>)
    ensures
        diffs_match(r@, parse_diff(diff@)),
{
    let lines = split_lines(diff);
    let ghost ls = lines_of(diff@);
    let p_diff = chars_of("diff --git");
    let p_hunk = chars_of("@@");
    let p_minus = chars_of("-");
    let p_minus3 = chars_of("---");
    let p_plus = chars_of("+");
    let p_plus3 = chars_of("+++");
    let p_space = chars_of(" ");
    let p_bslash = chars_of("\\");
    let p_b = chars_of("b/");
    proof {
        reveal_strlit("diff --git");
        reveal_strlit("@@");
        reveal_strlit("-");
        reveal_strlit("---");
        reveal_strlit("+");
        reveal_strlit("+++");
        reveal_strlit(" ");
        reveal_strlit("\\");
        reveal_strlit("b/");
        assert(p_diff@ =~= seq!['d', 'i', 'f', 'f', ' ', '-', '-', 'g', 'i', 't']);
        assert(p_hunk@ =~= seq!['@', '@']);
        assert(p_minus@ =~= seq!['-']);
        assert(p_minus3@ =~= seq!['-', '-', '-']);
        assert(p_plus@ =~= seq!['+']);
        assert(p_plus3@ =~= seq!['+', '+', '+']);
        assert(p_space@ =~= seq![' ']);
        assert(p_bslash@ =~= seq!['\\']);
        assert(p_b@ =~= seq!['b', '/']);
    }
    let mut files: Vec<FileDiff> = Vec::new();
    let mut current: Option<String> = None;
    let mut old_content = String::new();
    let mut new_content = String::new();
    let mut in_hunk = false;
    let mut k: usize = 0;
    assert(views(lines@).len() == lines.len());
    while k < lines.len()
        invariant
            k <= lines.len(),
            views(lines@) == ls,
            ls.len() == lines.len(),
            p_diff@ == seq!['d', 'i', 'f', 'f', ' ', '-', '-', 'g', 'i', 't'],
            p_hunk@ == seq!['@', '@'],
            p_minus@ == seq!['-'],
            p_minus3@ == seq!['-', '-', '-'],
            p_plus@ == seq!['+'],
            p_plus3@ == seq!['+', '+', '+'],
            p_space@ == seq![' '],
            p_bslash@ == seq!['\\'],
            p_b@ == seq!['b', '/'],
            ({
                let st = parse_upto(ls, k as int);
                &&& diffs_match(files@, st.files)
                &&& (match current {
                    Some(c) => st.current == Some(c@),
                    None => st.current is None,
                })
                &&& old_content@ == st.old
                &&& new_content@ == st.new
                &&& in_hunk == st.in_hunk
            }),
        decreases lines.len() - k,
    {
        let line = chars_of(lines[k].as_str());
        assert(line@ == ls[k as int]);
        if starts(&line, &p_diff) {
            match current {
                Some(name) => {
                    let o = old_content;
                    let n = new_content;
                    let ghost before = files@;
                    close_file(&mut files, name, o, n);
                    proof {
                        assert(files@ =~= before.push(files@.last()));
                        let st = parse_upto(ls, k as int);
                        lemma_match_push(before, st.files, files@.last(), (st.current->0, st.old, st.new));
                    }
                },
                None => {},
            }
            current = match fourth_word(&line) {
                Some(w) => {
                    if starts(&w, &p_b) {
                        Some(string_from(&w, 2, w.len()))
                    } else {
                        Some(string_from(&w, 0, w.len()))
                    }
                },
                None => None,
            };
            proof {
                assert forall|t: Seq<char>| starts_with(t, seq!['b', '/']) implies t.skip(2) =~= t.subrange(2, t.len() as int) by {}
            }
            old_content = String::new();
            new_content = String::new();
            in_hunk = false;
        } else if starts(&line, &p_hunk) {
            in_hunk = true;
        } else if in_hunk && current.is_some() {
            if starts(&line, &p_minus) {
                if !starts(&line, &p_minus3) {
                    append_from(&mut old_content, &line, 1);
                }
            } else if starts(&line, &p_plus) {
                if !starts(&line, &p_plus3) {
                    append_from(&mut new_content, &line, 1);
                }
            } else if starts(&line, &p_space) {
                append_from(&mut old_content, &line, 1);
                append_from(&mut new_content, &line, 1);
            } else if !starts(&line, &p_bslash) {
                append_from(&mut old_content, &line, 0);
                append_from(&mut new_content, &line, 0);
                assert(line@.skip(0) =~= line@);
            }
        }
        k = k + 1;
    }
    match current {
        Some(name) => {
            let ghost before = files@;
            close_file(&mut files, name, old_content, new_content);
            proof {
                assert(files@ =~= before.push(files@.last()));
                let st = parse_upto(ls, k as int);
                lemma_match_push(before, st.files, files@.last(), (st.current->0, st.old, st.new));
            }
        },
        None => {},
    }
    files
}


/// The lines of each output, one output after another.
pub open spec fn all_lines(outputs: Seq<Seq<char>>) -> Seq<Seq<char>>
    decreases outputs.len(),
{
    if outputs.len() == 0 {
        seq![]
    } else {
        all_lines(outputs.drop_last()) + lines_of(outputs.last())
    }
}

/// Whether a path passes the path filter (no filter passes every path).
pub open spec fn passes(filter: Option<Seq<Seq<char>>>, x: Seq<char>) -> bool {
    match filter {
        Some(f) => f.contains(x),
        None => true,
    }
}

/// The paths named by `names`, each once, in order of first appearance:
/// empty lines and paths that the filter leaves out are skipped.
pub open spec fn collect_paths(names: Seq<Seq<char>>, filter: Option<Seq<Seq<char>>>) -> Seq<Seq<char>>
    decreases names.len(),
{
    if names.len() == 0 {
        seq![]
    } else {
        let p = collect_paths(names.drop_last(), filter);
        let x = names.last();
        if x.len() > 0 && !p.contains(x) && passes(filter, x) {
            p.push(x)
        } else {
            p
        }
    }
}

pub open spec fn filter_view(filter: Option<&Vec<String>>) -> Option<Seq<Seq<char>>> {
    match filter {
        Some(f) => Some(views(f@)),
        None => None,
    }
}

proof fn lemma_holds_views(v: Seq<String>, x: Seq<char>)
    ensures
        crate::state::holds_name(v, x) == views(v).contains(x),
{
    if crate::state::holds_name(v, x) {
        let k = choose|k: int| 0 <= k < v.len() && #[trigger] v[k]@ == x;
        assert(views(v)[k] == x);
    }
    if views(v).contains(x) {
        let k = choose|k: int| 0 <= k < views(v).len() && views(v)[k] == x;
        assert(v[k]@ == x);
    }
}

/// The changed paths that git printed in `outputs` (one path per line, as
/// `git diff --name-only` prints them), each once, in order of first
/// appearance, narrowed to `filter` when there is one.
pub fn changed_files_from_output(outputs: &Vec<String>, filter: Option<&Vec<String>>) -> (r: Vec<String>)
    ensures
        views(r@) == collect_paths(all_lines(views(outputs@)), filter_view(filter)),
{
    let ghost outs = views(outputs@);
    let ghost fv = filter_view(filter);
    let mut r: Vec<String> = Vec::new();
    let mut i: usize = 0;
    assert(outs.take(0) =~= Seq::<Seq<char>>::empty());
    assert(views(r@) =~= Seq::<Seq<char>>::empty());
    while i < outputs.len()
        invariant
            i <= outputs.len(),
            outs == views(outputs@),
            outs.len() == outputs.len(),
            fv == filter_view(filter),
            views(r@) == collect_paths(all_lines(outs.take(i as int)), fv),
        decreases outputs.len() - i,
    {
        let ls = split_lines(outputs[i].as_str());
        let ghost base = all_lines(outs.take(i as int));
        assert(outs[i as int] == outputs@[i as int]@);
        assert(outs.take(i + 1).drop_last() =~= outs.take(i as int));
        assert(all_lines(outs.take(i + 1)) == base + lines_of(outs[i as int]));
        let mut j: usize = 0;
        assert(views(ls@).len() == ls.len());
        assert(base + views(ls@).take(0) =~= base);
        while j < ls.len()
            invariant
                j <= ls.len(),
                fv == filter_view(filter),
                views(ls@).len() == ls.len(),
                views(r@) == collect_paths(base + views(ls@).take(j as int), fv),
            decreases ls.len() - j,
        {
            let x = &ls[j];
            let ghost names = base + views(ls@).take(j + 1);
            assert(names.drop_last() =~= base + views(ls@).take(j as int));
            assert(names.last() == x@);
            let keep_filter = match filter {
                Some(f) => {
                    proof {
                        lemma_holds_views(f@, x@);
                    }
                    crate::state::contains_name(f, x)
                },
                None => true,
            };
            proof {
                lemma_holds_views(r@, x@);
            }
            if !x.as_str().is_empty() && !crate::state::contains_name(&r, x) && keep_filter {
                let ghost before = r@;
                r.push(x.clone());
                assert(views(r@) =~= views(before).push(x@));
            }
            j = j + 1;
        }
        assert(views(ls@).take(ls.len() as int) =~= views(ls@));
        i = i + 1;
    }
    assert(outs.take(outputs.len() as int) =~= outs);
    r
}

/// A revision, or two, named on the command line.
#[derive(Clone, Debug)]
pub enum CommitReference {
    Single(String),
    Range { from: String, to: String },
    TripleDots { from: String, to: String },
}

/// The two sides that a diff compares.
#[derive(Clone, Debug)]
pub enum DiffRefs {
    /// Uncommitted changes: the working tree against `HEAD`.
    WorkingTree,
    /// One commit against its parent.
    Single(String),
    /// Two refs.
    Range { from: String, to: String },
}

impl DiffRefs {
    /// The sides that `reference` names. For `a...b` the old side is
    /// `merge_base`, the merge base of `a` and `b` as git printed it.
    pub fn from_options(reference: &Option<CommitReference>, merge_base: &String) -> (r: DiffRefs)
        ensures
            reference is None ==> r is WorkingTree,
            reference matches Some(CommitReference::Single(s)) ==> (r matches DiffRefs::Single(t) && t@ == s@),
            reference matches Some(CommitReference::Range { from, to }) ==> (r matches DiffRefs::Range { from: f, to: t } && f@ == from@ && t@ == to@),
            reference matches Some(CommitReference::TripleDots { from, to }) ==> (r matches DiffRefs::Range { from: f, to: t } && f@ == merge_base@ && t@ == to@),
    {
        match reference {
            None => DiffRefs::WorkingTree,
            Some(CommitReference::Single(sha)) => DiffRefs::Single(sha.clone()),
            Some(CommitReference::Range { from, to }) => DiffRefs::Range { from: from.clone(), to: to.clone() },
            Some(CommitReference::TripleDots { to, .. }) => DiffRefs::Range { from: merge_base.clone(), to: to.clone() },
        }
    }
}

fn append_str(s: &mut String, t: &str)
    ensures
        final(s)@ == old(s)@ + t@,
{
    let cs = chars_of(t);
    let ghost start = s@;
    let mut k: usize = 0;
    while k < cs.len()
        invariant
            k <= cs.len(),
            cs@ == t@,
            s@ == start + cs@.take(k as int),
        decreases cs.len() - k,
    {
        push_char(s, cs[k]);
        assert(cs@.take(k + 1) =~= cs@.take(k as int).push(cs@[k as int]));
        k = k + 1;
    }
    assert(cs@.take(cs.len() as int) =~= cs@);
}

/// The object `git show` reads for the old side of `filename`:
/// `sha^:path`, `from:path`, or `HEAD:path`.
pub fn old_object_name(filename: &str, refs: &DiffRefs) -> (r: String)
    ensures
        refs matches DiffRefs::Single(sha) ==> r@ == sha@ + seq!['^', ':'] + filename@,
        refs matches DiffRefs::Range { from, .. } ==> r@ == from@ + seq![':'] + filename@,
        refs is WorkingTree ==> r@ == seq!['H', 'E', 'A', 'D', ':'] + filename@,
{
    let mut r = String::new();
    match refs {
        DiffRefs::Single(sha) => {
            append_str(&mut r, sha.as_str());
            push_char(&mut r, '^');
            push_char(&mut r, ':');
        },
        DiffRefs::Range { from, .. } => {
            append_str(&mut r, from.as_str());
            push_char(&mut r, ':');
        },
        DiffRefs::WorkingTree => {
            push_char(&mut r, 'H');
            push_char(&mut r, 'E');
            push_char(&mut r, 'A');
            push_char(&mut r, 'D');
            push_char(&mut r, ':');
        },
    }
    let ghost before = r@;
    append_str(&mut r, filename);
    proof {
        match refs {
            DiffRefs::Single(sha) => {
                assert(before =~= Seq::<char>::empty() + sha@ + seq!['^', ':']);
            },
            DiffRefs::Range { from, .. } => {
                assert(before =~= Seq::<char>::empty() + from@ + seq![':']);
            },
            DiffRefs::WorkingTree => {
                assert(before =~= seq!['H', 'E', 'A', 'D', ':']);
            },
        }
    }
    r
}

/// The object `git show` reads for the new side of `filename`: `sha:path`
/// or `to:path`; none for the working tree, whose file is read from disk.
pub fn new_object_name(filename: &str, refs: &DiffRefs) -> (r: Option<String>)
    ensures
        refs matches DiffRefs::Single(sha) ==> (r matches Some(x) && x@ == sha@ + seq![':'] + filename@),
        refs matches DiffRefs::Range { to, .. } ==> (r matches Some(x) && x@ == to@ + seq![':'] + filename@),
        refs is WorkingTree ==> r is None,
{
    let rev = match refs {
        DiffRefs::Single(sha) => sha,
        DiffRefs::Range { to, .. } => to,
        DiffRefs::WorkingTree => {
            return None;
        },
    };
    let mut r = String::new();
    append_str(&mut r, rev.as_str());
    push_char(&mut r, ':');
    append_str(&mut r, filename);
    assert(r@ =~= Seq::<char>::empty() + rev@ + seq![':'] + filename@);
    Some(r)
}

} // verus!
