//! Search highlights laid over the syntax fragments of a line.
use vstd::prelude::*;
use crate::text::{chars_of, push_char};

verus! {

/// How a piece of a rendered line is styled.
#[derive(Clone, Copy, Debug, PartialEq, Eq, Structural)]
pub enum SpanKind {
    /// The syntax style of the fragment (a highlight index, if any).
    Base(Option<usize>),
    /// Inside a match of the search.
    Match,
    /// Inside the current match of the search.
    CurrentMatch,
}

/// The characters of a list of styled pieces, in order.
pub open spec fn flat_chars<T>(segs: Seq<(Seq<char>, T)>) -> Seq<char>
    decreases segs.len(),
{
    if segs.len() == 0 {
        seq![]
    } else {
        flat_chars(segs.drop_last()) + segs.last().0
    }
}

/// The style of each character of a list of styled pieces.
pub open spec fn flat_tags<T>(segs: Seq<(Seq<char>, T)>) -> Seq<T>
    decreases segs.len(),
{
    if segs.len() == 0 {
        seq![]
    } else {
        flat_tags(segs.drop_last()) + Seq::new(segs.last().0.len(), |k: int| segs.last().1)
    }
}

/// Whether a range of `ranges` (current ones only, if `current_only`)
/// covers character `p`.
pub open spec fn covered(ranges: Seq<(usize, usize, bool)>, p: int, current_only: bool) -> bool {
    exists|k: int|
        0 <= k < ranges.len() && (#[trigger] ranges[k]).0 <= p < ranges[k].1 && (!current_only
            || ranges[k].2)
}

/// The style of character `p` whose syntax style is `tag`: the current
/// match over any match over the syntax.
pub open spec fn kind_at(ranges: Seq<(usize, usize, bool)>, p: int, tag: Option<usize>) -> SpanKind {
    if covered(ranges, p, true) {
        SpanKind::CurrentMatch
    } else if covered(ranges, p, false) {
        SpanKind::Match
    } else {
        SpanKind::Base(tag)
    }
}

pub open spec fn seg_views<T>(v: Seq<(String, T)>) -> Seq<(Seq<char>, T)> {
    v.map_values(|x: (String, T)| (x.0@, x.1))
}

fn kind_of(ranges: &[(usize, usize, bool)], p: usize, tag: Option<usize>) -> (r: SpanKind)
    ensures
        r == kind_at(ranges@, p as int, tag),
{
    let mut any = false;
    let mut cur = false;
    let mut k: usize = 0;
    while k < ranges.len()
        invariant
            k <= ranges.len(),
            any == exists|q: int| 0 <= q < k && (#[trigger] ranges@[q]).0 <= p < ranges@[q].1,
            cur == exists|q: int| 0 <= q < k && (#[trigger] ranges@[q]).0 <= p < ranges@[q].1 && ranges@[q].2,
        decreases ranges.len() - k,
    {
        let (s, e, c) = ranges[k];
        if s <= p && p < e {
            any = true;
            if c {
                cur = true;
            }
        }
        proof {
            assert(ranges@[k as int] == (s, e, c));
        }
        k = k + 1;
    }
    if cur {
        SpanKind::CurrentMatch
    } else if any {
        SpanKind::Match
    } else {
        SpanKind::Base(tag)
    }
}

proof fn lemma_flat_push<T>(s: Seq<(Seq<char>, T)>, x: (Seq<char>, T))
    ensures
        flat_chars(s.push(x)) == flat_chars(s) + x.0,
        flat_tags(s.push(x)) == flat_tags(s) + Seq::new(x.0.len(), |k: int| x.1),
{
    assert(s.push(x).drop_last() =~= s);
}

proof fn lemma_seg_push<T>(v: Seq<(String, T)>, x: (String, T))
    ensures
        seg_views(v.push(x)) == seg_views(v).push((x.0@, x.1)),
{
    assert(seg_views(v.push(x)) =~= seg_views(v).push((x.0@, x.1)));
}

proof fn lemma_flat_len<T>(s: Seq<(Seq<char>, T)>)
    ensures
        flat_tags(s).len() == flat_chars(s).len(),
    decreases s.len(),
{
    if s.len() > 0 {
        lemma_flat_len(s.drop_last());
    }
}

/// Each piece with its syntax style, as it stands.
pub open spec fn as_base(v: Seq<(Seq<char>, Option<usize>)>) -> Seq<(Seq<char>, SpanKind)> {
    v.map_values(|x: (Seq<char>, Option<usize>)| (x.0, SpanKind::Base(x.1)))
}

proof fn lemma_as_base_flat(v: Seq<(Seq<char>, Option<usize>)>)
    ensures
        flat_chars(as_base(v)) == flat_chars(v),
        flat_tags(as_base(v)) == flat_tags(v).map_values(|t: Option<usize>| SpanKind::Base(t)),
    decreases v.len(),
{
    if v.len() > 0 {
        lemma_as_base_flat(v.drop_last());
        assert(as_base(v).drop_last() =~= as_base(v.drop_last()));
        let l = v.last();
        assert(flat_tags(v).map_values(|t: Option<usize>| SpanKind::Base(t)) =~= flat_tags(
            v.drop_last(),
        ).map_values(|t: Option<usize>| SpanKind::Base(t)) + Seq::new(l.0.len(), |k: int| SpanKind::Base(l.1)));
    }
}

/// Splits the syntax fragments `base` of a line where the search ranges
/// `match_ranges` (character positions `[start, end)`, and whether current)
/// begin and end. The text stays as it was; each character takes the style
/// `kind_at` gives it, so a match is drawn over the syntax colours and never
/// replaces the text under it. With no range the fragments come back as
/// they are, empty ones included; otherwise no piece is empty.
pub fn apply_search_highlight(base: &Vec<(String, Option<usize>)>, match_ranges: &[(usize, usize, bool)]) -> (r: Vec<(String, SpanKind)>)
    requires
        flat_chars(seg_views(base@)).len() <= usize::MAX,
    ensures
        flat_chars(seg_views(r@)) == flat_chars(seg_views(base@)),
        flat_tags(seg_views(r@)) == Seq::new(
            flat_chars(seg_views(base@)).len(),
            |p: int| kind_at(match_ranges@, p, flat_tags(seg_views(base@))[p]),
        ),
        match_ranges@.len() == 0 ==> seg_views(r@) == as_base(seg_views(base@)),
        match_ranges@.len() > 0 ==> forall|k: int| 0 <= k < r.len() ==> (#[trigger] r@[k]).0@.len() > 0,
{
    if match_ranges.len() == 0 {
        return keep_base(base);
    }
    let ghost bv = seg_views(base@);
    let ghost want = Seq::new(
        flat_chars(bv).len(),
        |p: int| kind_at(match_ranges@, p, flat_tags(bv)[p]),
    );
    proof {
        lemma_flat_len(bv);
    }
    let mut out: Vec<(String, SpanKind)> = Vec::new();
    let mut pos: usize = 0;
    let mut i: usize = 0;
    assert(bv.take(0) =~= Seq::<(Seq<char>, Option<usize>)>::empty());
    assert(seg_views(out@) =~= Seq::<(Seq<char>, SpanKind)>::empty());
    while i < base.len()
        invariant
            i <= base.len(),
            bv == seg_views(base@),
            bv.len() == base.len(),
            flat_chars(bv).len() <= usize::MAX,
            flat_tags(bv).len() == flat_chars(bv).len(),
            want == Seq::new(flat_chars(bv).len(), |p: int| kind_at(match_ranges@, p, flat_tags(bv)[p])),
            pos as int == flat_chars(bv.take(i as int)).len(),
            flat_chars(seg_views(out@)) == flat_chars(bv.take(i as int)),
            flat_tags(seg_views(out@)) == want.take(pos as int),
            forall|k: int| 0 <= k < out.len() ==> (#[trigger] out@[k]).0@.len() > 0,
        decreases base.len() - i,
    {
        assert(bv[i as int] == (base@[i as int].0@, base@[i as int].1));
        assert(bv.take(i + 1) =~= bv.take(i as int).push(bv[i as int]));
        proof {
            lemma_flat_push(bv.take(i as int), bv[i as int]);
            lemma_prefix_flat(bv, i + 1);
        }
        proof {
            lemma_flat_len(bv.take(i as int));
        }
        let cs = chars_of(base[i].0.as_str());
        let tag = base[i].1;
        let mut cur = String::new();
        let mut cur_kind = SpanKind::Base(tag);
        let mut cur_len: usize = 0;
        let mut j: usize = 0;
        while j < cs.len()
            invariant
                j <= cs.len(),
                i < base.len(),
                bv == seg_views(base@),
                cs@ == bv[i as int].0,
                tag == bv[i as int].1,
                cur_len == cur@.len(),
                cur_len <= j,
                flat_tags(bv.take(i as int)).len() == pos,
                flat_chars(bv).len() <= usize::MAX,
                flat_tags(bv).len() == flat_chars(bv).len(),
                want == Seq::new(flat_chars(bv).len(), |p: int| kind_at(match_ranges@, p, flat_tags(bv)[p])),
                pos as int == flat_chars(bv.take(i as int)).len(),
                flat_chars(bv.take(i + 1)) == flat_chars(bv.take(i as int)) + cs@,
                flat_tags(bv.take(i + 1)) == flat_tags(bv.take(i as int)) + Seq::new(cs@.len(), |k: int| tag),
                flat_chars(bv.take(i + 1)).len() <= flat_chars(bv).len(),
                flat_tags(bv.take(i + 1)) == flat_tags(bv).take(flat_chars(bv.take(i + 1)).len() as int),
                flat_chars(seg_views(out@)) + cur@ == flat_chars(bv.take(i as int)) + cs@.take(j as int),
                flat_tags(seg_views(out@)) + Seq::new(cur@.len(), |k: int| cur_kind) == want.take(pos + j),
                forall|k: int| 0 <= k < out.len() ==> (#[trigger] out@[k]).0@.len() > 0,
            decreases cs.len() - j,
        {
            let p = pos + j;
            let k = kind_of(match_ranges, p, tag);
            proof {
                assert(flat_tags(bv)[p as int] == flat_tags(bv.take(i + 1))[p as int]);
                assert(flat_tags(bv.take(i + 1))[p as int] == tag);
                assert(want[p as int] == k);
            }
            if cur_len > 0 && k != cur_kind {
                let ghost before = out@;
                let ghost old_cur = cur@;
                let ghost old_kind = cur_kind;
                out.push((cur, cur_kind));
                proof {
                    lemma_seg_push(before, (cur, cur_kind));
                    lemma_flat_push(seg_views(before), (old_cur, old_kind));
                }
                cur = String::new();
                cur_len = 0;
                assert(Seq::new(0nat, |q: int| k) + Seq::<SpanKind>::empty() =~= Seq::<SpanKind>::empty());
                assert(flat_chars(seg_views(out@)) + cur@ =~= flat_chars(seg_views(before)) + old_cur);
                assert(flat_tags(seg_views(out@)) + Seq::new(cur@.len(), |q: int| k) =~= flat_tags(seg_views(before)) + Seq::new(old_cur.len(), |q: int| old_kind));
            }
            let ghost ck = cur_kind;
            let ghost oc = cur@;
            proof {
                if oc.len() == 0 {
                    assert(Seq::new(oc.len(), |q: int| ck) =~= Seq::new(oc.len(), |q: int| k));
                }
            }
            push_char(&mut cur, cs[j]);
            cur_len = cur_len + 1;
            cur_kind = k;
            proof {
                assert(cs@.take(j + 1) =~= cs@.take(j as int).push(cs@[j as int]));
                assert(cur@ == oc.push(cs@[j as int]));
                assert(flat_chars(seg_views(out@)) + cur@ =~= (flat_chars(seg_views(out@)) + oc).push(cs@[j as int]));
                assert(want.take(p + 1) =~= want.take(p as int).push(want[p as int]));
                assert(Seq::new(cur@.len(), |q: int| k) =~= Seq::new(oc.len(), |q: int| k).push(k));
            }
            j = j + 1;
        }
        if cur_len > 0 {
            let ghost before = out@;
            let ghost old_cur = cur@;
            out.push((cur, cur_kind));
            proof {
                lemma_seg_push(before, (cur, cur_kind));
                lemma_flat_push(seg_views(before), (old_cur, cur_kind));
            }
        } else {
            assert(cur@ =~= Seq::<char>::empty());
            assert(flat_chars(seg_views(out@)) + cur@ =~= flat_chars(seg_views(out@)));
            assert(Seq::new(cur@.len(), |q: int| cur_kind) =~= Seq::<SpanKind>::empty());
            assert(flat_tags(seg_views(out@)) + Seq::new(cur@.len(), |q: int| cur_kind) =~= flat_tags(seg_views(out@)));
        }
        assert(cs@.take(cs.len() as int) =~= cs@);
        pos = pos + cs.len();
        i = i + 1;
    }
    assert(bv.take(base.len() as int) =~= bv);
    assert(want.take(pos as int) =~= want);
    out
}

/// The fragments of `base`, each with its syntax style.
fn keep_base(base: &Vec<(String, Option<usize>)>) -> (r: Vec<(String, SpanKind)>)
    ensures
        seg_views(r@) == as_base(seg_views(base@)),
        flat_chars(seg_views(r@)) == flat_chars(seg_views(base@)),
        forall|p: int|
            0 <= p < flat_tags(seg_views(r@)).len() ==> #[trigger] flat_tags(seg_views(r@))[p]
                == SpanKind::Base(flat_tags(seg_views(base@))[p]),
        flat_tags(seg_views(r@)).len() == flat_chars(seg_views(base@)).len(),
{
    let mut r: Vec<(String, SpanKind)> = Vec::new();
    let mut i: usize = 0;
    while i < base.len()
        invariant
            i <= base.len(),
            seg_views(r@) == as_base(seg_views(base@)).take(i as int),
        decreases base.len() - i,
    {
        let ghost before = r@;
        r.push((base[i].0.clone(), SpanKind::Base(base[i].1)));
        proof {
            lemma_seg_push(before, r@.last());
            assert(as_base(seg_views(base@)).take(i + 1) =~= as_base(seg_views(base@)).take(i as int).push(
                (base@[i as int].0@, SpanKind::Base(base@[i as int].1)),
            ));
        }
        i = i + 1;
    }
    proof {
        assert(as_base(seg_views(base@)).take(i as int) =~= as_base(seg_views(base@)));
        lemma_as_base_flat(seg_views(base@));
        lemma_flat_len(seg_views(base@));
        lemma_flat_len(seg_views(r@));
    }
    r
}

/// The flattened tags of a prefix of pieces are a prefix of the tags of all.
proof fn lemma_prefix_flat<T>(s: Seq<(Seq<char>, T)>, i: int)
    requires
        0 <= i <= s.len(),
    ensures
        flat_chars(s.take(i)).len() <= flat_chars(s).len(),
        flat_tags(s.take(i)) == flat_tags(s).take(flat_chars(s.take(i)).len() as int),
    decreases s.len() - i,
{
    lemma_flat_len(s.take(i));
    lemma_flat_len(s);
    if i < s.len() {
        lemma_prefix_flat(s, i + 1);
        assert(s.take(i + 1) =~= s.take(i).push(s[i]));
        lemma_flat_push(s.take(i), s[i]);
        lemma_flat_len(s.take(i + 1));
        assert(flat_tags(s.take(i)) =~= flat_tags(s.take(i + 1)).take(flat_chars(s.take(i)).len() as int));
    } else {
        assert(s.take(i) =~= s);
        assert(flat_tags(s).take(flat_chars(s).len() as int) =~= flat_tags(s));
    }
}

} // verus!
