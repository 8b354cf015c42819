//! Slash-separated paths, read the way a Unix path is split into components.
use vstd::prelude::*;

verus! {

/// The pieces of `s` between occurrences of `sep`, empty pieces included
/// (what `str::split` yields).
pub open spec fn split_on<T>(s: Seq<T>, sep: T) -> Seq<Seq<T>>
    decreases s.len(),
{
    if s.len() == 0 {
        seq![Seq::<T>::empty()]
    } else {
        let init = split_on(s.drop_last(), sep);
        if s.last() == sep {
            init.push(Seq::<T>::empty())
        } else {
            init.update(init.len() - 1, init.last().push(s.last()))
        }
    }
}

/// The pieces of `s` between slashes, empty pieces included.
pub open spec fn segments(s: Seq<char>) -> Seq<Seq<char>> {
    split_on(s, '/')
}

/// Whether a segment names a path component: it is neither empty nor `.`.
pub open spec fn names_component(seg: Seq<char>) -> bool {
    seg.len() > 0 && seg != seq!['.']
}

/// The segments that name components, in order.
pub open spec fn keep_components(segs: Seq<Seq<char>>) -> Seq<Seq<char>>
    decreases segs.len(),
{
    if segs.len() == 0 {
        Seq::<Seq<char>>::empty()
    } else {
        let rest = keep_components(segs.drop_last());
        if names_component(segs.last()) {
            rest.push(segs.last())
        } else {
            rest
        }
    }
}

/// The components of a path: empty segments and `.` segments are not components.
pub open spec fn components(s: Seq<char>) -> Seq<Seq<char>> {
    keep_components(segments(s))
}

/// Whether the path starts with a `.` component (`.` alone, or `./...`).
pub open spec fn leads_with_cur_dir(s: Seq<char>) -> bool {
    s.len() >= 1 && s[0] == '.' && (s.len() == 1 || s[1] == '/')
}

/// Whether the characters at `i` and `i + 1` form a whole `..` segment.
pub open spec fn parent_segment_at(s: Seq<char>, i: int) -> bool {
    &&& 0 <= i
    &&& i + 1 < s.len()
    &&& s[i] == '.'
    &&& s[i + 1] == '.'
    &&& (i == 0 || s[i - 1] == '/')
    &&& (i + 2 == s.len() || s[i + 2] == '/')
}

/// Whether some segment of the path is `..`.
pub open spec fn has_parent_segment(s: Seq<char>) -> bool {
    exists|i: int| parent_segment_at(s, i)
}

/// Whether the path holds a component that is neither the root nor a plain name:
/// a leading `.` or any `..`.
pub open spec fn has_unsafe_component(s: Seq<char>) -> bool {
    leads_with_cur_dir(s) || has_parent_segment(s)
}

/// Executable form of [`has_unsafe_component`].
pub fn unsafe_component(s: &[char]) -> (r: bool)
    ensures
        r == has_unsafe_component(s@),
{
    let n = s.len();
    if n >= 1 && s[0] == '.' && (n == 1 || s[1] == '/') {
        return true;
    }
    let mut i: usize = 0;
    while n > 1 && i < n - 1
        invariant
            n == s@.len(),
            i <= n,
            forall|k: int| 0 <= k < i ==> !parent_segment_at(s@, k),
        decreases n - i,
    {
        if s[i] == '.' && s[i + 1] == '.' && (i == 0 || s[i - 1] == '/') && (i + 2 == n || s[i
            + 2] == '/') {
            assert(parent_segment_at(s@, i as int));
            return true;
        }
        assert(!parent_segment_at(s@, i as int));
        i = i + 1;
    }
    assert forall|k: int| !parent_segment_at(s@, k) by {
        if 0 <= k < i {
        } else if k >= i {
            assert(!(k + 1 < n));
        }
    }
    false
}

/// The views of a list of character vectors.
pub open spec fn views(v: Seq<Vec<char>>) -> Seq<Seq<char>> {
    Seq::new(v.len(), |i: int| v[i]@)
}

/// `split_on` always yields at least one piece.
pub proof fn lemma_split_nonempty<T>(s: Seq<T>, sep: T)
    ensures
        split_on(s, sep).len() >= 1,
    decreases s.len(),
{
    if s.len() > 0 {
        lemma_split_nonempty(s.drop_last(), sep);
    }
}

/// Text without the separator is one piece.
pub proof fn lemma_split_single<T>(s: Seq<T>, sep: T)
    requires
        forall|i: int| 0 <= i < s.len() ==> s[i] != sep,
    ensures
        split_on(s, sep) == seq![s],
    decreases s.len(),
{
    if s.len() > 0 {
        lemma_split_single(s.drop_last(), sep);
        assert(s.drop_last().push(s.last()) =~= s);
        assert(seq![s.drop_last()].update(0, s) =~= seq![s]);
    } else {
        assert(s =~= Seq::<T>::empty());
    }
}

/// Splitting text joined by a separator splits each side.
pub proof fn lemma_split_concat<T>(a: Seq<T>, b: Seq<T>, sep: T)
    ensures
        split_on(a + seq![sep] + b, sep) == split_on(a, sep) + split_on(b, sep),
    decreases b.len(),
{
    let whole = a + seq![sep] + b;
    if b.len() == 0 {
        assert(whole.drop_last() =~= a);
        assert(split_on(b, sep) =~= seq![Seq::<T>::empty()]);
        assert(split_on(a, sep).push(Seq::<T>::empty()) =~= split_on(a, sep) + seq![Seq::<T>::empty()]);
    } else {
        lemma_split_concat(a, b.drop_last(), sep);
        assert(whole.drop_last() =~= a + seq![sep] + b.drop_last());
        assert(whole.last() == b.last());
        let left = split_on(a, sep);
        let right = split_on(b.drop_last(), sep);
        lemma_split_nonempty(b.drop_last(), sep);
        if b.last() == sep {
            assert((left + right).push(Seq::<T>::empty()) =~= left + right.push(Seq::<T>::empty()));
        } else {
            let joined = left + right;
            assert(joined.last() == right.last());
            assert(joined.update(joined.len() - 1, joined.last().push(b.last())) =~= left + right.update(
                right.len() - 1,
                right.last().push(b.last()),
            ));
        }
    }
}

/// The components of `s`, one vector of characters each.
pub fn path_components(s: &[char]) -> (out: Vec<Vec<char>>)
    ensures
        views(out@) == components(s@),
{
    let mut out: Vec<Vec<char>> = Vec::new();
    let mut cur: Vec<char> = Vec::new();
    let ghost mut done: Seq<Seq<char>> = Seq::empty();
    let mut i: usize = 0;
    proof {
        assert(s@.take(0) =~= Seq::<char>::empty());
    }
    while i < s.len()
        invariant
            i <= s@.len(),
            segments(s@.take(i as int)) == done.push(cur@),
            views(out@) == keep_components(done),
        decreases s@.len() - i,
    {
        let c = s[i];
        proof {
            assert(s@.take(i + 1).drop_last() =~= s@.take(i as int));
            assert(s@.take(i + 1).last() == c);
        }
        if c == '/' {
            proof {
                lemma_keep_push(done, cur@);
                assert(done.push(cur@).drop_last() =~= done);
            }
            if cur.len() > 0 && !(cur.len() == 1 && cur[0] == '.') {
                proof {
                    assert(names_component(cur@));
                }
                out.push(cur);
                proof {
                    assert(views(out@) =~= keep_components(done).push(cur@));
                }
            } else {
                proof {
                    if cur@.len() == 1 {
                        assert(cur@ =~= seq!['.']);
                    }
                    assert(!names_component(cur@));
                }
            }
            proof {
                done = done.push(cur@);
            }
            cur = Vec::new();
            proof {
                assert(segments(s@.take(i + 1)) =~= done.push(cur@));
            }
        } else {
            let ghost old_cur = cur@;
            cur.push(c);
            proof {
                let init = segments(s@.take(i as int));
                assert(init =~= done.push(old_cur));
                assert(segments(s@.take(i + 1)) =~= done.push(cur@));
            }
        }
        i = i + 1;
    }
    proof {
        assert(s@.take(s@.len() as int) =~= s@);
        lemma_keep_push(done, cur@);
        assert(done.push(cur@).drop_last() =~= done);
    }
    if cur.len() > 0 && !(cur.len() == 1 && cur[0] == '.') {
        out.push(cur);
        proof {
            assert(views(out@) =~= keep_components(done.push(cur@)));
        }
    } else {
        proof {
            if cur@.len() == 1 {
                assert(cur@ =~= seq!['.']);
            }
            assert(views(out@) =~= keep_components(done.push(cur@)));
        }
    }
    out
}

proof fn lemma_keep_push(done: Seq<Seq<char>>, seg: Seq<char>)
    ensures
        keep_components(done.push(seg)) == if names_component(seg) {
            keep_components(done).push(seg)
        } else {
            keep_components(done)
        },
{
    assert(done.push(seg).drop_last() =~= done);
}

/// Whether two lists of components are equal.
pub fn same_components(a: &Vec<Vec<char>>, b: &Vec<Vec<char>>) -> (r: bool)
    ensures
        r == (views(a@) == views(b@)),
{
    if a.len() != b.len() {
        assert(views(a@).len() != views(b@).len());
        return false;
    }
    let mut i: usize = 0;
    while i < a.len()
        invariant
            a@.len() == b@.len(),
            i <= a@.len(),
            forall|k: int| 0 <= k < i ==> a@[k]@ == b@[k]@,
        decreases a@.len() - i,
    {
        if !crate::text::chars_eq(a[i].as_slice(), b[i].as_slice()) {
            assert(views(a@)[i as int] != views(b@)[i as int]);
            return false;
        }
        i = i + 1;
    }
    assert(views(a@) =~= views(b@));
    true
}

} // verus!

verus! {

/// Splits `s` at each `sep`, keeping empty pieces (what `str::split` yields).
pub fn split_chars(s: &[char], sep: char) -> (out: Vec<Vec<char>>)
    ensures
        views(out@) == split_on(s@, sep),
{
    let mut out: Vec<Vec<char>> = Vec::new();
    let mut cur: Vec<char> = Vec::new();
    let mut i: usize = 0;
    proof {
        assert(s@.take(0) =~= Seq::<char>::empty());
        assert(views(out@).push(cur@) =~= split_on(s@.take(0), sep));
    }
    while i < s.len()
        invariant
            i <= s@.len(),
            split_on(s@.take(i as int), sep) == views(out@).push(cur@),
        decreases s@.len() - i,
    {
        let c = s[i];
        proof {
            assert(s@.take(i + 1).drop_last() =~= s@.take(i as int));
            assert(s@.take(i + 1).last() == c);
        }
        if c == sep {
            let ghost before = views(out@);
            out.push(cur);
            cur = Vec::new();
            proof {
                assert(views(out@) =~= before.push(out@.last()@));
                assert(split_on(s@.take(i + 1), sep) =~= views(out@).push(cur@));
            }
        } else {
            let ghost old_cur = cur@;
            cur.push(c);
            proof {
                assert(split_on(s@.take(i + 1), sep) =~= views(out@).push(cur@));
            }
        }
        i = i + 1;
    }
    proof {
        assert(s@.take(s@.len() as int) =~= s@);
    }
    let ghost before = views(out@);
    out.push(cur);
    proof {
        assert(views(out@) =~= before.push(out@.last()@));
    }
    out
}

} // verus!

verus! {

/// Whether the components `a` come no later than `b`, comparing component by
/// component (the order of `Path` for paths made of plain names).
pub open spec fn components_le(a: Seq<Seq<char>>, b: Seq<Seq<char>>) -> bool
    decreases a.len(),
{
    if a.len() == 0 {
        true
    } else if b.len() == 0 {
        false
    } else if a[0] != b[0] {
        crate::text::lex_le(a[0], b[0])
    } else {
        components_le(a.drop_first(), b.drop_first())
    }
}

/// Any two component lists are ordered one way or the other.
pub proof fn lemma_components_total(a: Seq<Seq<char>>, b: Seq<Seq<char>>)
    ensures
        components_le(a, b) || components_le(b, a),
    decreases a.len(),
{
    if a.len() > 0 && b.len() > 0 {
        if a[0] == b[0] {
            lemma_components_total(a.drop_first(), b.drop_first());
        } else {
            crate::text::lemma_lex_total(a[0], b[0]);
        }
    }
}

/// Every component list is ordered no later than itself.
pub proof fn lemma_components_reflexive(a: Seq<Seq<char>>)
    ensures
        components_le(a, a),
    decreases a.len(),
{
    if a.len() > 0 {
        lemma_components_reflexive(a.drop_first());
    }
}

/// The order of component lists is transitive.
pub proof fn lemma_components_transitive(a: Seq<Seq<char>>, b: Seq<Seq<char>>, c: Seq<Seq<char>>)
    requires
        components_le(a, b),
        components_le(b, c),
    ensures
        components_le(a, c),
    decreases a.len(),
{
    if a.len() > 0 && b.len() > 0 && c.len() > 0 {
        if a[0] == b[0] && b[0] == c[0] {
            lemma_components_transitive(a.drop_first(), b.drop_first(), c.drop_first());
        } else if a[0] == b[0] {
        } else if b[0] == c[0] {
        } else {
            crate::text::lemma_lex_transitive(a[0], b[0], c[0]);
            if a[0] == c[0] {
                crate::text::lemma_lex_antisymmetric(a[0], b[0]);
            }
        }
    }
}

/// Executable form of [`components_le`].
pub fn components_le_exec(a: &Vec<Vec<char>>, b: &Vec<Vec<char>>) -> (r: bool)
    ensures
        r == components_le(views(a@), views(b@)),
{
    let mut i: usize = 0;
    proof {
        assert(views(a@).skip(0) =~= views(a@));
        assert(views(b@).skip(0) =~= views(b@));
    }
    while i < a.len() && i < b.len()
        invariant
            i <= a@.len(),
            i <= b@.len(),
            components_le(views(a@), views(b@)) == components_le(views(a@).skip(i as int), views(b@).skip(i as int)),
        decreases a@.len() - i,
    {
        if !crate::text::chars_eq(a[i].as_slice(), b[i].as_slice()) {
            assert(views(a@).skip(i as int)[0] == a@[i as int]@);
            return crate::text::chars_lex_le(a[i].as_slice(), b[i].as_slice());
        }
        proof {
            assert(views(a@).skip(i as int).drop_first() =~= views(a@).skip(i + 1));
            assert(views(b@).skip(i as int).drop_first() =~= views(b@).skip(i + 1));
        }
        i = i + 1;
    }
    i == a.len()
}

} // verus!
