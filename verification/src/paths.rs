//! Turning an asset id into a path below an output folder, refusing ids
//! that could name anything outside it.

use vstd::prelude::*;
use vstd::string::*;

verus! {

/// The segments of `s` between `/` separators, from left to right; an
/// empty string has one empty segment.
pub open spec fn split_slash(s: Seq<char>) -> Seq<Seq<char>>
    decreases s.len(),
{
    if s.len() == 0 {
        seq![seq![]]
    } else {
        let r = split_slash(s.drop_last());
        if s.last() == '/' {
            r.push(seq![])
        } else {
            r.update(r.len() - 1, r.last().push(s.last()))
        }
    }
}

/// Whether an id names something other than a path below the output
/// folder: it is empty, holds a NUL or a backslash, starts at the root,
/// starts with a `.` component, or has a `..` component.
pub open spec fn id_rejected(id: Seq<char>) -> bool {
    ||| id.len() == 0
    ||| id.contains('\0')
    ||| id.contains('\\')
    ||| id[0] == '/'
    ||| split_slash(id)[0] == seq!['.']
    ||| exists|i: int| 0 <= i < split_slash(id).len() && split_slash(id)[i] == seq!['.', '.']
}

/// Appends component `c` to path `p`, adding a separator unless `p` is
/// empty or already ends with one.
pub open spec fn join_component(p: Seq<char>, c: Seq<char>) -> Seq<char> {
    if p.len() == 0 || p.last() == '/' {
        p + c
    } else {
        p + seq!['/'] + c
    }
}

/// Appends to `p` the segments of `segs` that name a component: the
/// empty segments and the `.` segments are left out.
pub open spec fn join_segments(p: Seq<char>, segs: Seq<Seq<char>>) -> Seq<char>
    decreases segs.len(),
{
    if segs.len() == 0 {
        p
    } else {
        let q = join_segments(p, segs.drop_last());
        let c = segs.last();
        if c.len() == 0 || c == seq!['.'] {
            q
        } else {
            join_component(q, c)
        }
    }
}

/// The path `safe_join` gives for `id` below `base`, or `None` when the id
/// is refused.
pub open spec fn safe_join_spec(base: Seq<char>, id: Seq<char>) -> Option<Seq<char>> {
    if id_rejected(id) {
        None
    } else {
        Some(join_segments(base, split_slash(id)))
    }
}

/// `split_slash` always yields at least one segment.
proof fn lemma_split_len(s: Seq<char>)
    ensures
        split_slash(s).len() >= 1,
    decreases s.len(),
{
    if s.len() > 0 {
        lemma_split_len(s.drop_last());
    }
}

/// The segments that a prefix of `s` completes are segments of `s`.
proof fn lemma_split_prefix(s: Seq<char>, k: int)
    requires
        0 <= k <= s.len(),
    ensures
        split_slash(s.take(k)).len() <= split_slash(s).len(),
        forall|j: int|
            0 <= j < split_slash(s.take(k)).len() - 1 ==> #[trigger] split_slash(s)[j] == split_slash(
                s.take(k),
            )[j],
    decreases s.len() - k,
{
    if k < s.len() {
        lemma_split_prefix(s, k + 1);
        lemma_split_len(s.take(k));
        assert(s.take(k + 1).drop_last() =~= s.take(k));
    } else {
        assert(s.take(k) =~= s);
    }
}

/// Whether segment `[start, end)` of `id` is `..`.
fn is_parent_segment(id: &str, start: usize, end: usize) -> (r: bool)
    requires
        start <= end <= id@.len(),
    ensures
        r == (id@.subrange(start as int, end as int) == seq!['.', '.']),
{
    let ghost c = id@.subrange(start as int, end as int);
    if end - start != 2 {
        assert(c.len() != 2);
        return false;
    }
    let a = id.get_char(start);
    let b = id.get_char(start + 1);
    assert(c[0] == a && c[1] == b);
    if a == '.' && b == '.' {
        assert(c =~= seq!['.', '.']);
        true
    } else {
        assert(c != seq!['.', '.']) by {
            if c == seq!['.', '.'] {
                assert(c[0] == '.' && c[1] == '.');
            }
        }
        false
    }
}

/// Whether segment `[start, end)` of `id` is `.`.
fn is_current_segment(id: &str, start: usize, end: usize) -> (r: bool)
    requires
        start <= end <= id@.len(),
    ensures
        r == (id@.subrange(start as int, end as int) == seq!['.']),
{
    let ghost c = id@.subrange(start as int, end as int);
    if end - start != 1 {
        assert(c.len() != 1);
        return false;
    }
    let a = id.get_char(start);
    assert(c[0] == a);
    if a == '.' {
        assert(c =~= seq!['.']);
        true
    } else {
        assert(c != seq!['.']) by {
            if c == seq!['.'] {
                assert(c[0] == '.');
            }
        }
        false
    }
}

/// Handles the segment `[start, end)` of `id` that a separator or the end
/// of the id closes: refuses a `..` segment and a leading `.` segment, and
/// appends any other non-empty, non-`.` segment to `out`.
fn finish_segment(out: &mut String, need_sep: &mut bool, id: &str, start: usize, end: usize) -> (ok: bool)
    requires
        start <= end <= id@.len(),
        forall|j: int| start <= j < end ==> id@[j] != '/',
        *old(need_sep) == !(old(out)@.len() == 0 || old(out)@.last() == '/'),
    ensures
        ok == !(id@.subrange(start as int, end as int) == seq!['.', '.'] || (start == 0
            && id@.subrange(start as int, end as int) == seq!['.'])),
        ok ==> final(out)@ == {
            let c = id@.subrange(start as int, end as int);
            if c.len() == 0 || c == seq!['.'] {
                old(out)@
            } else {
                join_component(old(out)@, c)
            }
        },
        ok ==> *final(need_sep) == !(final(out)@.len() == 0 || final(out)@.last() == '/'),
{
    if is_parent_segment(id, start, end) {
        return false;
    }
    let cur = is_current_segment(id, start, end);
    if cur && start == 0 {
        return false;
    }
    if !cur && end > start {
        if *need_sep {
            proof {
                reveal_strlit("/");
            }
            out.append("/");
        }
        let piece = id.substring_char(start, end);
        out.append(piece);
        *need_sep = true;
        proof {
            let c = id@.subrange(start as int, end as int);
            assert(out@.last() == c.last());
            assert(c.last() == id@[end - 1]);
        }
    }
    true
}

/// The path of asset `id` below folder `base`, built from the id's normal
/// components; `None` when the id is empty, holds a NUL or a backslash, or
/// has a root, `.` or `..` component at a place where a path would keep it.
pub fn safe_join(base: &str, id: &str) -> (r: Option<String>)
    ensures
        match safe_join_spec(base@, id@) {
            None => r is None,
            Some(p) => r matches Some(x) && x@ == p,
        },
        ({
            &&& id@.len() > 0
            &&& !id@.contains('\0')
            &&& !id@.contains('\\')
            &&& id@[0] != '/'
            &&& split_slash(id@)[0] != seq!['.']
            &&& forall|i: int| 0 <= i < split_slash(id@).len() ==> #[trigger] split_slash(id@)[i] != seq!['.', '.']
        }) ==> (r matches Some(x) && x@ == join_all(base@, kept_segments(split_slash(id@)))),
        r matches Some(x) ==> x@.subrange(0, base@.len() as int) == base@ && split_slash(
            x@.skip(base@.len() as int),
        ) == if needs_separator(base@) {
            seq![seq![]] + kept_segments(split_slash(id@))
        } else {
            kept_segments(split_slash(id@))
        },
{
    proof {
        law_safe_join_accepts(base@, id@);
        law_safe_join_components(base@, id@);
    }
    let n: usize = id.unicode_len();
    if n == 0 {
        return None;
    }
    let mut i: usize = 0;
    while i < n
        invariant
            n == id@.len(),
            i <= n,
            forall|j: int| 0 <= j < i ==> id@[j] != '\0' && id@[j] != '\\',
        decreases n - i,
    {
        let c = id.get_char(i);
        if c == '\0' || c == '\\' {
            assert(id@.contains(id@[i as int]));
            return None;
        }
        i = i + 1;
    }
    assert(!id@.contains('\0') && !id@.contains('\\'));
    if id.get_char(0) == '/' {
        return None;
    }
    let mut out = base.to_owned();
    let base_len: usize = base.unicode_len();
    let mut need_sep = base_len > 0 && base.get_char(base_len - 1) != '/';
    let mut seg_start: usize = 0;
    let mut i: usize = 0;
    proof {
        assert(id@.take(0) =~= seq![]);
        assert(split_slash(id@.take(0)) =~= seq![seq![]]);
        assert(join_segments(base@, seq![]) == base@);
    }
    while i < n
        invariant
            n == id@.len(),
            seg_start <= i <= n,
            split_slash(id@.take(i as int)).last() == id@.subrange(seg_start as int, i as int),
            out@ == join_segments(base@, split_slash(id@.take(i as int)).drop_last()),
            seg_start == 0 <==> split_slash(id@.take(i as int)).len() == 1,
            forall|j: int|
                0 <= j < split_slash(id@.take(i as int)).len() - 1 ==> #[trigger] split_slash(
                    id@.take(i as int),
                )[j] != seq!['.', '.'],
            seg_start > 0 ==> split_slash(id@.take(i as int))[0] != seq!['.'],
            forall|j: int| seg_start <= j < i ==> id@[j] != '/',
            need_sep == !(out@.len() == 0 || out@.last() == '/'),
        decreases n - i,
    {
        let ghost segs = split_slash(id@.take(i as int));
        proof {
            lemma_split_len(id@.take(i as int));
            assert(id@.take(i + 1).drop_last() =~= id@.take(i as int));
            assert(id@.take(i + 1).last() == id@[i as int]);
        }
        if id.get_char(i) == '/' {
            proof {
                lemma_split_prefix(id@, i + 1);
            }
            if !finish_segment(&mut out, &mut need_sep, id, seg_start, i) {
                proof {
                    let k: int = segs.len() - 1;
                    assert(split_slash(id@)[k] == split_slash(id@.take(i + 1))[k]);
                }
                return None;
            }
            proof {
                assert(segs.drop_last().push(segs.last()) =~= segs);
                assert(out@ == join_segments(base@, segs));
                assert(split_slash(id@.take(i + 1)).drop_last() =~= segs);
                assert(id@.subrange(i + 1, i + 1) =~= seq![]);
            }
            seg_start = i + 1;
        } else {
            proof {
                assert(split_slash(id@.take(i + 1)).drop_last() =~= segs.drop_last());
                assert(id@.subrange(seg_start as int, i + 1) =~= id@.subrange(seg_start as int, i as int).push(id@[i as int]));
            }
        }
        i = i + 1;
    }
    let ghost segs = split_slash(id@.take(i as int));
    proof {
        lemma_split_len(id@.take(i as int));
        assert(id@.take(i as int) =~= id@);
    }
    if !finish_segment(&mut out, &mut need_sep, id, seg_start, n) {
        return None;
    }
    proof {
        assert(segs.drop_last().push(segs.last()) =~= segs);
        assert(out@ == join_segments(base@, segs));
        assert(split_slash(id@)[0] != seq!['.']);
        assert forall|j: int| 0 <= j < split_slash(id@).len() implies split_slash(id@)[j] != seq!['.', '.'] by {
            if j < segs.len() - 1 {
                assert(split_slash(id@.take(i as int))[j] != seq!['.', '.']);
            }
        }
    }
    Some(out)
}

/// A component that names an entry of the folder it is joined to: not
/// empty, not `.` or `..`, and without a separator.
pub open spec fn is_normal_component(c: Seq<char>) -> bool {
    &&& c.len() > 0
    &&& c != seq!['.']
    &&& c != seq!['.', '.']
    &&& !c.contains('/')
}

/// `p` with each of `cs` joined to it in turn.
pub open spec fn join_all(p: Seq<char>, cs: Seq<Seq<char>>) -> Seq<char>
    decreases cs.len(),
{
    if cs.len() == 0 {
        p
    } else {
        join_component(join_all(p, cs.drop_last()), cs.last())
    }
}

/// The segments that `join_segments` keeps.
pub open spec fn kept_segments(segs: Seq<Seq<char>>) -> Seq<Seq<char>>
    decreases segs.len(),
{
    if segs.len() == 0 {
        seq![]
    } else {
        let k = kept_segments(segs.drop_last());
        let c = segs.last();
        if c.len() == 0 || c == seq!['.'] {
            k
        } else {
            k.push(c)
        }
    }
}

proof fn lemma_join_kept(p: Seq<char>, segs: Seq<Seq<char>>)
    ensures
        join_segments(p, segs) == join_all(p, kept_segments(segs)),
    decreases segs.len(),
{
    if segs.len() > 0 {
        lemma_join_kept(p, segs.drop_last());
        let k = kept_segments(segs.drop_last());
        let c = segs.last();
        if !(c.len() == 0 || c == seq!['.']) {
            assert(k.push(c).drop_last() =~= k);
        }
    }
}

proof fn lemma_split_no_slash(s: Seq<char>)
    ensures
        forall|i: int| 0 <= i < split_slash(s).len() ==> !(#[trigger] split_slash(s)[i]).contains('/'),
    decreases s.len(),
{
    if s.len() > 0 {
        lemma_split_no_slash(s.drop_last());
        lemma_split_len(s.drop_last());
        let r = split_slash(s.drop_last());
        if s.last() != '/' {
            let l = r.last().push(s.last());
            assert forall|i: int| 0 <= i < split_slash(s).len() implies !(#[trigger] split_slash(s)[i]).contains('/') by {
                if i == r.len() - 1 {
                    if l.contains('/') {
                        let j = choose|j: int| 0 <= j < l.len() && l[j] == '/';
                        if j < r.last().len() {
                            assert(r.last().contains('/'));
                        }
                    }
                }
            }
        } else {
            assert forall|i: int| 0 <= i < split_slash(s).len() implies !(#[trigger] split_slash(s)[i]).contains('/') by {
                if i == r.len() {
                    assert(split_slash(s)[i] =~= seq![]);
                }
            }
        }
    }
}

proof fn lemma_kept_normal(segs: Seq<Seq<char>>)
    requires
        forall|i: int| 0 <= i < segs.len() ==> !(#[trigger] segs[i]).contains('/') && segs[i] != seq!['.', '.'],
    ensures
        forall|i: int| 0 <= i < kept_segments(segs).len() ==> is_normal_component(#[trigger] kept_segments(segs)[i]),
    decreases segs.len(),
{
    if segs.len() > 0 {
        assert forall|i: int| 0 <= i < segs.drop_last().len() implies !(#[trigger] segs.drop_last()[i]).contains('/')
            && segs.drop_last()[i] != seq!['.', '.'] by {
            assert(segs.drop_last()[i] == segs[i]);
        }
        lemma_kept_normal(segs.drop_last());
        let k = kept_segments(segs.drop_last());
        let c = segs.last();
        assert(!c.contains('/') && c != seq!['.', '.']);
        if !(c.len() == 0 || c == seq!['.']) {
            assert forall|i: int| 0 <= i < k.push(c).len() implies is_normal_component(#[trigger] k.push(c)[i]) by {
                if i < k.len() {
                    assert(k.push(c)[i] == k[i]);
                }
            }
        }
    }
}

proof fn lemma_join_all_prefix(p: Seq<char>, cs: Seq<Seq<char>>)
    ensures
        p.len() <= join_all(p, cs).len(),
        join_all(p, cs).subrange(0, p.len() as int) == p,
    decreases cs.len(),
{
    if cs.len() > 0 {
        lemma_join_all_prefix(p, cs.drop_last());
        let q = join_all(p, cs.drop_last());
        assert(join_all(p, cs).subrange(0, p.len() as int) =~= q.subrange(0, p.len() as int));
    }
}

/// A path that `safe_join` gives is the base folder followed by normal
/// components only: it never names the folder's parent, the folder itself
/// or a root.
pub proof fn law_safe_join_stays_below(base: Seq<char>, id: Seq<char>)
    ensures
        safe_join_spec(base, id) matches Some(p) ==> {
            let cs = kept_segments(split_slash(id));
            &&& p == join_all(base, cs)
            &&& cs.len() > 0
            &&& forall|i: int| 0 <= i < cs.len() ==> is_normal_component(#[trigger] cs[i])
            &&& p.subrange(0, base.len() as int) == base
        },
{
    if !id_rejected(id) {
        let segs = split_slash(id);
        lemma_join_kept(base, segs);
        lemma_split_no_slash(id);
        lemma_kept_normal(segs);
        lemma_join_all_prefix(base, kept_segments(segs));
        lemma_kept_nonempty(id);
    }
}

/// An accepted id keeps at least one segment: its first.
proof fn lemma_kept_nonempty(id: Seq<char>)
    requires
        !id_rejected(id),
    ensures
        kept_segments(split_slash(id)).len() > 0,
{
    let segs = split_slash(id);
    lemma_split_len(id);
    lemma_first_segment_nonempty(id);
    lemma_kept_grows(segs);
}

proof fn lemma_first_segment_nonempty(s: Seq<char>)
    requires
        s.len() > 0,
        s[0] != '/',
    ensures
        split_slash(s)[0].len() > 0,
    decreases s.len(),
{
    lemma_split_len(s);
    if s.len() > 1 {
        assert(s.drop_last()[0] == s[0]);
        lemma_first_segment_nonempty(s.drop_last());
        lemma_split_len(s.drop_last());
    } else {
        assert(s.drop_last() =~= seq![]);
        assert(split_slash(s.drop_last()) =~= seq![seq![]]);
    }
}

proof fn lemma_kept_grows(segs: Seq<Seq<char>>)
    requires
        segs.len() > 0,
        segs[0].len() > 0,
        segs[0] != seq!['.'],
    ensures
        kept_segments(segs).len() > 0,
    decreases segs.len(),
{
    if segs.len() > 1 {
        assert(segs.drop_last()[0] == segs[0]);
        lemma_kept_grows(segs.drop_last());
    } else {
        assert(segs.drop_last() =~= seq![]);
    }
}

/// Every id that is not empty, holds no NUL and no backslash, does not
/// start at the root, does not start with a `.` segment and has no `..`
/// segment is accepted, and its path is the base followed by the id's
/// non-empty, non-`.` segments, in order.
pub proof fn law_safe_join_accepts(base: Seq<char>, id: Seq<char>)
    ensures
        ({
            &&& id.len() > 0
            &&& !id.contains('\0')
            &&& !id.contains('\\')
            &&& id[0] != '/'
            &&& split_slash(id)[0] != seq!['.']
            &&& forall|i: int| 0 <= i < split_slash(id).len() ==> #[trigger] split_slash(id)[i] != seq!['.', '.']
        }) ==> safe_join_spec(base, id) == Some(join_all(base, kept_segments(split_slash(id)))),
{
    lemma_join_kept(base, split_slash(id));
}

/// Appending characters that hold no separator extends the last segment.
proof fn lemma_split_append_plain(s: Seq<char>, c: Seq<char>)
    requires
        !c.contains('/'),
    ensures
        split_slash(s + c) == split_slash(s).update(
            split_slash(s).len() - 1,
            split_slash(s).last() + c,
        ),
    decreases c.len(),
{
    lemma_split_len(s);
    if c.len() == 0 {
        assert(s + c =~= s);
        assert(split_slash(s).last() + c =~= split_slash(s).last());
        assert(split_slash(s).update(split_slash(s).len() - 1, split_slash(s).last()) =~= split_slash(s));
    } else {
        let c0 = c.drop_last();
        assert(!c0.contains('/')) by {
            if c0.contains('/') {
                let j = choose|j: int| 0 <= j < c0.len() && c0[j] == '/';
                assert(c[j] == '/');
            }
        }
        lemma_split_append_plain(s, c0);
        assert((s + c).drop_last() =~= s + c0);
        assert((s + c).last() == c.last());
        assert(c.last() != '/') by {
            assert(c[c.len() - 1] == c.last());
        }
        lemma_split_len(s + c0);
        let big = split_slash(s);
        let k = big.len() - 1;
        let r = split_slash(s + c0);
        assert(r.len() == big.len());
        assert(r.last() == big.last() + c0);
        assert(split_slash(s + c) == r.update(r.len() - 1, r.last().push(c.last())));
        assert((big.last() + c0).push(c.last()) =~= big.last() + c);
        assert(split_slash(s + c) =~= split_slash(s).update(
            split_slash(s).len() - 1,
            split_slash(s).last() + c,
        ));
    }
}

/// Whether joining a component to `p` adds a separator first.
pub open spec fn needs_separator(p: Seq<char>) -> bool {
    p.len() > 0 && p.last() != '/'
}

proof fn lemma_join_all_segments(p: Seq<char>, cs: Seq<Seq<char>>)
    requires
        cs.len() > 0,
        forall|i: int| 0 <= i < cs.len() ==> is_normal_component(#[trigger] cs[i]),
    ensures
        join_all(p, cs).len() >= p.len(),
        join_all(p, cs).subrange(0, p.len() as int) == p,
        join_all(p, cs).last() != '/',
        split_slash(join_all(p, cs).skip(p.len() as int)) == if needs_separator(p) {
            seq![seq![]] + cs
        } else {
            cs
        },
    decreases cs.len(),
{
    let c = cs.last();
    assert(is_normal_component(cs[cs.len() - 1]));
    lemma_join_all_prefix(p, cs);
    if cs.len() == 1 {
        assert(cs.drop_last() =~= seq![]);
        let q = p;
        assert(join_all(p, cs.drop_last()) == p);
        let rest: Seq<char> = if needs_separator(p) { seq!['/'] + c } else { c };
        assert(join_all(p, cs) =~= p + rest);
        assert(join_all(p, cs).skip(p.len() as int) =~= rest);
        assert(join_all(p, cs).last() == c.last());
        assert(c.last() != '/') by {
            assert(c[c.len() - 1] == c.last());
            if c.last() == '/' {
                assert(c.contains('/'));
            }
        }
        let e: Seq<char> = seq![];
        assert(split_slash(e) =~= seq![seq![]]);
        if needs_separator(p) {
            let slash: Seq<char> = seq!['/'];
            assert(slash.drop_last() =~= e);
            assert(split_slash(slash) =~= seq![seq![], seq![]]);
            lemma_split_append_plain(slash, c);
            assert(seq![seq![]] + cs =~= seq![seq![], c]);
            assert(split_slash(rest) =~= seq![seq![], c]);
        } else {
            lemma_split_append_plain(e, c);
            assert(e + c =~= c);
            assert(split_slash(c) =~= cs);
        }
    } else {
        let init = cs.drop_last();
        assert forall|i: int| 0 <= i < init.len() implies is_normal_component(#[trigger] init[i]) by {
            assert(init[i] == cs[i]);
        }
        lemma_join_all_segments(p, init);
        let q = join_all(p, init);
        let tail = q.skip(p.len() as int);
        assert(q.len() > 0);
        assert(join_all(p, cs) == q + seq!['/'] + c);
        assert(join_all(p, cs).skip(p.len() as int) =~= tail.push('/') + c);
        assert(join_all(p, cs).last() == c.last());
        assert(c.last() != '/') by {
            assert(c[c.len() - 1] == c.last());
            if c.last() == '/' {
                assert(c.contains('/'));
            }
        }
        assert(tail.push('/').drop_last() =~= tail);
        lemma_split_len(tail);
        lemma_split_append_plain(tail.push('/'), c);
        let lead: Seq<Seq<char>> = if needs_separator(p) { seq![seq![]] } else { seq![] };
        assert(lead + init.push(c) =~= lead + cs);
        assert(split_slash(tail.push('/') + c) =~= (lead + init).push(c));
    }
}

/// What follows the base in a path that `safe_join` gives (after one
/// separator, when the base is not empty and does not already end with
/// one) splits at its separators into exactly the id's components: its
/// non-empty, non-`.` segments, in order.
pub proof fn law_safe_join_components(base: Seq<char>, id: Seq<char>)
    ensures
        safe_join_spec(base, id) matches Some(p) ==> {
            &&& p.subrange(0, base.len() as int) == base
            &&& split_slash(p.skip(base.len() as int)) == if needs_separator(base) {
                seq![seq![]] + kept_segments(split_slash(id))
            } else {
                kept_segments(split_slash(id))
            }
        },
{
    law_safe_join_stays_below(base, id);
    if !id_rejected(id) {
        lemma_join_all_segments(base, kept_segments(split_slash(id)));
    }
}

} // verus!
