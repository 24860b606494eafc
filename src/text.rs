//! Text helpers: characters of a string, lines, tab expansion.
use vstd::prelude::*;

verus! {

/// The pieces of `s` between occurrences of `sep`, always at least one.
pub open spec fn split_on(s: Seq<char>, sep: char) -> Seq<Seq<char>>
    decreases s.len(),
{
    if s.len() == 0 {
        seq![Seq::<char>::empty()]
    } else {
        let p = split_on(s.drop_last(), sep);
        if s.last() == sep {
            p.push(Seq::<char>::empty())
        } else {
            p.update(p.len() - 1, p.last().push(s.last()))
        }
    }
}

/// Relies on `String::push`: appends one character.
#[verifier::external_body]
pub(crate) fn push_char(s: &mut String, c: char)
    ensures
        final(s)@ == old(s)@.push(c),
{
    s.push(c);
}

/// The characters of `s`, in order.
pub fn chars_of(s: &str) -> (r: Vec<char>)
    ensures
        r@ == s@,
{
    let mut v: Vec<char> = Vec::new();
    for c in it: s.chars()
        invariant
            v@ == it.seq().take(it.index() as int),
    {
        v.push(c);
    }
    v
}


/// `l` without one trailing carriage return.
pub open spec fn strip_cr(l: Seq<char>) -> Seq<char> {
    if l.len() > 0 && l.last() == '\r' {
        l.drop_last()
    } else {
        l
    }
}

/// The lines of `s`: split at `\n`; a `\r` before a `\n` belongs to the line
/// ending; a final `\n` opens no further line, so "" has no line at all.
pub open spec fn lines_of(s: Seq<char>) -> Seq<Seq<char>> {
    let p = split_on(s, '\n');
    let n = if p.last().len() == 0 {
        p.len() - 1
    } else {
        p.len() as int
    };
    Seq::new(n as nat, |i: int| if i < p.len() - 1 { strip_cr(p[i]) } else { p[i] })
}

/// The views of a sequence of strings.
pub open spec fn views(v: Seq<String>) -> Seq<Seq<char>> {
    v.map_values(|x: String| x@)
}

/// `l` with every tab replaced by `w` spaces.
pub open spec fn expand_tabs(l: Seq<char>, w: nat) -> Seq<char>
    decreases l.len(),
{
    if l.len() == 0 {
        l
    } else if l.last() == '\t' {
        expand_tabs(l.drop_last(), w) + Seq::new(w, |k: int| ' ')
    } else {
        expand_tabs(l.drop_last(), w).push(l.last())
    }
}

proof fn lemma_split_step(s: Seq<char>, i: int, sep: char)
    requires
        0 <= i < s.len(),
    ensures
        split_on(s.take(i + 1), sep) == (if s[i] == sep {
            split_on(s.take(i), sep).push(Seq::<char>::empty())
        } else {
            let p = split_on(s.take(i), sep);
            p.update(p.len() - 1, p.last().push(s[i]))
        }),
{
    assert(s.take(i + 1).drop_last() == s.take(i));
}

pub proof fn lemma_split_nonempty(s: Seq<char>, sep: char)
    ensures
        split_on(s, sep).len() >= 1,
    decreases s.len(),
{
    if s.len() > 0 {
        lemma_split_nonempty(s.drop_last(), sep);
    }
}

/// The string holding `v[lo..hi]`.
pub(crate) fn string_from(v: &Vec<char>, lo: usize, hi: usize) -> (r: String)
    requires
        lo <= hi <= v.len(),
    ensures
        r@ == v@.subrange(lo as int, hi as int),
{
    let mut r = String::new();
    let mut k: usize = lo;
    while k < hi
        invariant
            lo <= k <= hi <= v.len(),
            r@ == v@.subrange(lo as int, k as int),
        decreases hi - k,
    {
        push_char(&mut r, v[k]);
        assert(v@.subrange(lo as int, k + 1) == v@.subrange(lo as int, k as int).push(v@[k as int]));
        k = k + 1;
    }
    r
}

/// The lines of `s`, as `lines_of` states them.
pub fn split_lines(s: &str) -> (r: Vec<String>)
    ensures
        views(r@) == lines_of(s@),
{
    let cs = chars_of(s);
    let n = cs.len();
    let mut out: Vec<String> = Vec::new();
    let mut start: usize = 0;
    let mut i: usize = 0;
    proof {
        assert(cs@.take(0) == Seq::<char>::empty());
        assert(cs@.subrange(0, 0) == Seq::<char>::empty());
    }
    while i < n
        invariant
            n == cs.len(),
            cs@ == s@,
            0 <= start <= i <= n,
            split_on(cs@.take(i as int), '\n').len() == out.len() + 1,
            forall|k: int|
                0 <= k < out.len() ==> #[trigger] out@[k]@ == strip_cr(
                    split_on(cs@.take(i as int), '\n')[k],
                ),
            split_on(cs@.take(i as int), '\n').last() == cs@.subrange(start as int, i as int),
        decreases n - i,
    {
        proof {
            lemma_split_step(cs@, i as int, '\n');
        }
        if cs[i] == '\n' {
            let hi = if i > start && cs[i - 1] == '\r' {
                i - 1
            } else {
                i
            };
            let line = string_from(&cs, start, hi);
            proof {
                let piece = cs@.subrange(start as int, i as int);
                if i > start && cs@[i - 1] == '\r' {
                    assert(piece.drop_last() == cs@.subrange(start as int, hi as int));
                }
            }
            out.push(line);
            start = i + 1;
            assert(cs@.subrange(start as int, i + 1) == Seq::<char>::empty());
        } else {
            assert(cs@.subrange(start as int, i + 1) == cs@.subrange(start as int, i as int).push(
                cs@[i as int],
            ));
        }
        i = i + 1;
    }
    assert(cs@.take(n as int) == cs@);
    if start < n {
        let line = string_from(&cs, start, n);
        out.push(line);
    }
    proof {
        let p = split_on(s@, '\n');
        let l = lines_of(s@);
        assert(views(out@).len() == l.len());
        assert forall|k: int| 0 <= k < l.len() implies views(out@)[k] == l[k] by {}
        assert(views(out@) == l);
    }
    out
}

/// The pieces of `s` between occurrences of `sep`, as `split_on` states them.
pub fn split_str(s: &str, sep: char) -> (r: Vec<String>)
    ensures
        views(r@) == split_on(s@, sep),
{
    let cs = chars_of(s);
    let n = cs.len();
    let mut out: Vec<String> = Vec::new();
    let mut start: usize = 0;
    let mut i: usize = 0;
    proof {
        assert(cs@.take(0) == Seq::<char>::empty());
        assert(cs@.subrange(0, 0) == Seq::<char>::empty());
    }
    while i < n
        invariant
            n == cs.len(),
            cs@ == s@,
            0 <= start <= i <= n,
            split_on(cs@.take(i as int), sep).len() == out.len() + 1,
            forall|k: int|
                0 <= k < out.len() ==> #[trigger] out@[k]@ == split_on(cs@.take(i as int), sep)[k],
            split_on(cs@.take(i as int), sep).last() == cs@.subrange(start as int, i as int),
        decreases n - i,
    {
        proof {
            lemma_split_step(cs@, i as int, sep);
        }
        if cs[i] == sep {
            let piece = string_from(&cs, start, i);
            out.push(piece);
            start = i + 1;
            assert(cs@.subrange(start as int, i + 1) == Seq::<char>::empty());
        } else {
            assert(cs@.subrange(start as int, i + 1) == cs@.subrange(start as int, i as int).push(
                cs@[i as int],
            ));
        }
        i = i + 1;
    }
    assert(cs@.take(n as int) == cs@);
    let last = string_from(&cs, start, n);
    out.push(last);
    proof {
        let p = split_on(s@, sep);
        assert(views(out@).len() == p.len());
        assert forall|k: int| 0 <= k < p.len() implies views(out@)[k] == p[k] by {}
        assert(views(out@) == p);
    }
    out
}

/// `s` with every tab replaced by `w` spaces.
pub fn expand_tabs_str(s: &str, w: usize) -> (r: String)
    ensures
        r@ == expand_tabs(s@, w as nat),
{
    let cs = chars_of(s);
    let mut r = String::new();
    let mut k: usize = 0;
    while k < cs.len()
        invariant
            k <= cs.len(),
            cs@ == s@,
            r@ == expand_tabs(cs@.take(k as int), w as nat),
        decreases cs.len() - k,
    {
        assert(cs@.take(k + 1).drop_last() == cs@.take(k as int));
        if cs[k] == '\t' {
            let ghost before = r@;
            let mut j: usize = 0;
            while j < w
                invariant
                    j <= w,
                    r@ == before + Seq::new(j as nat, |q: int| ' '),
                decreases w - j,
            {
                push_char(&mut r, ' ');
                assert(before + Seq::new((j + 1) as nat, |q: int| ' ') == (before + Seq::new(
                    j as nat,
                    |q: int| ' ',
                )).push(' '));
                j = j + 1;
            }
        } else {
            push_char(&mut r, cs[k]);
        }
        k = k + 1;
    }
    assert(cs@.take(cs.len() as int) == cs@);
    r
}

} // verus!
