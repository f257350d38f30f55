use vstd::prelude::*;

verus! {

/// The segments of a path: the runs of characters between `/` separators, in order.
/// A path always has at least one segment (possibly empty).
pub open spec fn segments(s: Seq<char>) -> Seq<Seq<char>>
    decreases s.len(),
{
    if s.len() == 0 {
        seq![Seq::<char>::empty()]
    } else {
        let prev = segments(s.drop_last());
        if s.last() == '/' {
            prev.push(Seq::<char>::empty())
        } else {
            prev.update(prev.len() - 1, prev.last().push(s.last()))
        }
    }
}

/// The path made of `segs` separated by `/`.
pub open spec fn joined(segs: Seq<Seq<char>>) -> Seq<char>
    decreases segs.len(),
{
    if segs.len() == 0 {
        Seq::<char>::empty()
    } else if segs.len() == 1 {
        segs[0]
    } else {
        joined(segs.drop_last()) + seq!['/'] + segs.last()
    }
}

/// A segment holds no separator.
pub open spec fn plain(seg: Seq<char>) -> bool {
    !seg.contains('/')
}

/// Every segment of `segs` holds no separator.
pub open spec fn all_plain(segs: Seq<Seq<char>>) -> bool {
    forall|i: int| 0 <= i < segs.len() ==> #[trigger] plain(segs[i])
}

/// Strict lexicographic order on strings, by character code.
pub open spec fn precedes(a: Seq<char>, b: Seq<char>) -> bool
    decreases a.len(),
{
    if a.len() == 0 {
        b.len() > 0
    } else if b.len() == 0 {
        false
    } else if a[0] != b[0] {
        (a[0] as int) < (b[0] as int)
    } else {
        precedes(a.drop_first(), b.drop_first())
    }
}

/// `needle` occurs as a contiguous part of `hay`.
pub open spec fn occurs_in(needle: Seq<char>, hay: Seq<char>) -> bool {
    exists|i: int|
        0 <= i <= hay.len() - needle.len() && #[trigger] hay.subrange(i, i + needle.len()) == needle
}

/// What `str::to_lowercase` gives for a string.
pub uninterp spec fn lower_of(s: Seq<char>) -> Seq<char>;

pub proof fn lemma_segments_nonempty(s: Seq<char>)
    ensures
        segments(s).len() >= 1,
    decreases s.len(),
{
    if s.len() > 0 {
        lemma_segments_nonempty(s.drop_last());
    }
}

/// Splitting a path and joining its segments gives the path back, and no segment holds a
/// separator.
pub proof fn lemma_join_segments(s: Seq<char>)
    ensures
        segments(s).len() >= 1,
        joined(segments(s)) == s,
        all_plain(segments(s)),
    decreases s.len(),
{
    if s.len() > 0 {
        let t = s.drop_last();
        lemma_join_segments(t);
        let prev = segments(t);
        let cur = segments(s);
        if s.last() == '/' {
            assert(cur.drop_last() =~= prev);
            assert(joined(cur) =~= s);
            assert forall|i: int| 0 <= i < cur.len() implies #[trigger] plain(cur[i]) by {
                if i < prev.len() {
                    assert(plain(prev[i]));
                } else {
                    assert(cur[i] =~= Seq::<char>::empty());
                }
            }
        } else {
            let x = prev.last();
            assert(plain(prev[prev.len() - 1]));
            assert(t.push(s.last()) =~= s);
            if prev.len() == 1 {
                assert(joined(prev) == prev[0]);
                assert(cur[0] == x.push(s.last()));
                assert(joined(cur) == cur[0]);
            } else {
                assert(cur.drop_last() =~= prev.drop_last());
                assert(joined(cur) =~= s);
            }
            assert forall|i: int| 0 <= i < cur.len() implies #[trigger] plain(cur[i]) by {
                if i < prev.len() - 1 {
                    assert(plain(prev[i]));
                } else {
                    assert(cur[i] =~= x.push(s.last()));
                    if cur[i].contains('/') {
                        let j = choose|j: int| 0 <= j < cur[i].len() && cur[i][j] == '/';
                        if j < x.len() {
                            assert(x[j] == '/');
                        }
                    }
                }
            }
        }
    }
}

proof fn lemma_segments_of_plain(x: Seq<char>)
    requires
        plain(x),
    ensures
        segments(x) == seq![x],
    decreases x.len(),
{
    if x.len() == 0 {
        assert(x =~= Seq::<char>::empty());
    } else {
        let t = x.drop_last();
        assert(plain(t)) by {
            if t.contains('/') {
                let j = choose|j: int| 0 <= j < t.len() && t[j] == '/';
                assert(x[j] == '/');
            }
        }
        lemma_segments_of_plain(t);
        assert(x.last() != '/') by {
            assert(x[x.len() - 1] == x.last());
        }
        assert(t.push(x.last()) =~= x);
        let prev = segments(t);
        assert(prev.last() == t);
        assert(segments(x) == prev.update(prev.len() - 1, prev.last().push(x.last())));
        assert(segments(x) =~= seq![x]);
    }
}

proof fn lemma_segments_append(a: Seq<char>, x: Seq<char>)
    requires
        plain(x),
    ensures
        segments(a + seq!['/'] + x) == segments(a).push(x),
    decreases x.len(),
{
    if x.len() == 0 {
        assert(x =~= Seq::<char>::empty());
        assert((a + seq!['/'] + x).drop_last() =~= a);
        assert(a + seq!['/'] + x =~= a.push('/'));
    } else {
        let t = x.drop_last();
        assert(plain(t)) by {
            if t.contains('/') {
                let j = choose|j: int| 0 <= j < t.len() && t[j] == '/';
                assert(x[j] == '/');
            }
        }
        lemma_segments_append(a, t);
        assert((a + seq!['/'] + x).drop_last() =~= a + seq!['/'] + t);
        assert(x.last() != '/') by {
            assert(x[x.len() - 1] == x.last());
        }
        assert((a + seq!['/'] + x).last() == x.last());
        lemma_segments_nonempty(a);
        assert(t.push(x.last()) =~= x);
        let prev = segments(a + seq!['/'] + t);
        assert(prev == segments(a).push(t));
        assert(prev.last() == t);
        assert(segments(a + seq!['/'] + x) == prev.update(prev.len() - 1, prev.last().push(x.last())));
        assert(segments(a + seq!['/'] + x) =~= segments(a).push(x));
    }
}

/// Joining separator-free segments and splitting the result gives the segments back.
pub proof fn lemma_segments_joined(segs: Seq<Seq<char>>)
    requires
        segs.len() >= 1,
        all_plain(segs),
    ensures
        segments(joined(segs)) == segs,
    decreases segs.len(),
{
    if segs.len() == 1 {
        assert(plain(segs[0]));
        lemma_segments_of_plain(segs[0]);
        assert(segs =~= seq![segs[0]]);
    } else {
        let init = segs.drop_last();
        assert forall|i: int| 0 <= i < init.len() implies #[trigger] plain(init[i]) by {
            assert(plain(segs[i]));
        }
        lemma_segments_joined(init);
        assert(plain(segs[segs.len() - 1]));
        lemma_segments_append(joined(init), segs.last());
        assert(init.push(segs.last()) =~= segs);
    }
}

/// Two lists of separator-free segments with the same joined path are equal.
pub proof fn lemma_joined_injective(a: Seq<Seq<char>>, b: Seq<Seq<char>>)
    requires
        a.len() >= 1,
        b.len() >= 1,
        all_plain(a),
        all_plain(b),
        joined(a) == joined(b),
    ensures
        a == b,
{
    lemma_segments_joined(a);
    lemma_segments_joined(b);
}

/// Joining one more segment onto a non-empty list.
pub proof fn lemma_joined_push(segs: Seq<Seq<char>>, x: Seq<char>)
    requires
        segs.len() >= 1,
    ensures
        joined(segs.push(x)) == joined(segs) + seq!['/'] + x,
{
    assert(segs.push(x).drop_last() =~= segs);
}

pub proof fn lemma_precedes_irreflexive(a: Seq<char>)
    ensures
        !precedes(a, a),
    decreases a.len(),
{
    if a.len() > 0 {
        lemma_precedes_irreflexive(a.drop_first());
    }
}

pub proof fn lemma_precedes_total(a: Seq<char>, b: Seq<char>)
    ensures
        a == b || precedes(a, b) || precedes(b, a),
        !(precedes(a, b) && precedes(b, a)),
    decreases a.len(),
{
    if a.len() > 0 && b.len() > 0 && a[0] == b[0] {
        lemma_precedes_total(a.drop_first(), b.drop_first());
        if a.drop_first() == b.drop_first() {
            assert(a =~= seq![a[0]] + a.drop_first());
            assert(b =~= seq![b[0]] + b.drop_first());
        }
    }
    if a.len() == 0 && b.len() == 0 {
        assert(a =~= b);
    }
    if a.len() > 0 && b.len() > 0 && a[0] != b[0] {
        assert(a[0] as int != b[0] as int);
    }
}

pub proof fn lemma_precedes_transitive(a: Seq<char>, b: Seq<char>, c: Seq<char>)
    requires
        precedes(a, b),
        precedes(b, c),
    ensures
        precedes(a, c),
    decreases a.len(),
{
    if a.len() > 0 && b.len() > 0 && c.len() > 0 && a[0] == b[0] && b[0] == c[0] {
        lemma_precedes_transitive(a.drop_first(), b.drop_first(), c.drop_first());
    }
}

/// The characters of a string.
pub fn chars_of(s: &str) -> (r: Vec<char>)
    ensures
        r@ == s@,
{
    let n = s.unicode_len();
    let mut r: Vec<char> = Vec::new();
    let mut i: usize = 0;
    while i < n
        invariant
            n == s@.len(),
            i <= n,
            r@ == s@.subrange(0, i as int),
        decreases n - i,
    {
        r.push(s.get_char(i));
        i = i + 1;
        assert(r@ =~= s@.subrange(0, i as int));
    }
    assert(r@ =~= s@);
    r
}

/// Splits a path into its segments.
pub fn split_path(s: &str) -> (r: Vec<String>)
    ensures
        r@.map_values(|x: String| x@) == segments(s@),
{
    let chars = chars_of(s);
    let n = chars.len();
    let mut r: Vec<String> = Vec::new();
    let mut start: usize = 0;
    let mut i: usize = 0;
    assert(s@.subrange(0, 0) =~= Seq::<char>::empty());
    assert(r@.map_values(|x: String| x@) =~= Seq::<Seq<char>>::empty());
    while i < n
        invariant
            chars@ == s@,
            n == chars@.len(),
            start <= i <= n,
            r@.map_values(|x: String| x@).push(s@.subrange(start as int, i as int)) == segments(
                s@.subrange(0, i as int),
            ),
        decreases n - i,
    {
        let ghost before = r@.map_values(|x: String| x@);
        let ghost cur = s@.subrange(start as int, i as int);
        assert(s@.subrange(0, i + 1).drop_last() =~= s@.subrange(0, i as int));
        assert(s@.subrange(0, i + 1).last() == chars@[i as int]);
        if chars[i] == '/' {
            let seg = s.substring_char(start, i).to_owned();
            r.push(seg);
            start = i + 1;
            assert(r@.map_values(|x: String| x@) =~= before.push(cur));
            assert(s@.subrange(start as int, i + 1) =~= Seq::<char>::empty());
        } else {
            assert(s@.subrange(start as int, i + 1) =~= cur.push(chars@[i as int]));
            assert(before.push(cur).update(before.len() as int, cur.push(chars@[i as int]))
                =~= before.push(cur.push(chars@[i as int])));
        }
        i = i + 1;
    }
    let last = s.substring_char(start, n).to_owned();
    r.push(last);
    assert(s@.subrange(0, n as int) =~= s@);
    assert(r@.map_values(|x: String| x@) =~= r@.drop_last().map_values(|x: String| x@).push(
        s@.subrange(start as int, n as int),
    ));
    r
}

/// Whether `a` comes strictly before `b` in lexicographic order.
pub fn precedes_exec(a: &Vec<char>, b: &Vec<char>) -> (r: bool)
    ensures
        r == precedes(a@, b@),
{
    let mut i: usize = 0;
    assert(a@.subrange(0, a@.len() as int) =~= a@);
    assert(b@.subrange(0, b@.len() as int) =~= b@);
    while i < a.len() && i < b.len() && a[i] == b[i]
        invariant
            i <= a.len(),
            i <= b.len(),
            precedes(a@, b@) == precedes(
                a@.subrange(i as int, a@.len() as int),
                b@.subrange(i as int, b@.len() as int),
            ),
        decreases a.len() - i,
    {
        assert(a@.subrange(i as int, a@.len() as int).drop_first() =~= a@.subrange(
            i + 1,
            a@.len() as int,
        ));
        assert(b@.subrange(i as int, b@.len() as int).drop_first() =~= b@.subrange(
            i + 1,
            b@.len() as int,
        ));
        i = i + 1;
    }
    let ghost ra = a@.subrange(i as int, a@.len() as int);
    let ghost rb = b@.subrange(i as int, b@.len() as int);
    if i == a.len() {
        assert(ra.len() == 0);
        assert(precedes(ra, rb) == (rb.len() > 0));
        i < b.len()
    } else if i == b.len() {
        assert(rb.len() == 0);
        false
    } else {
        assert(ra[0] == a@[i as int] && rb[0] == b@[i as int]);
        assert(a@[i as int] != b@[i as int]);
        let ca = a[i];
        let cb = b[i];
        let r = ca < cb;
        assert(r == ((ca as int) < (cb as int)));
        assert(r == precedes(ra, rb));
        r
    }
}

/// Whether `needle` occurs as a contiguous part of `hay`.
pub fn occurs_in_exec(needle: &Vec<char>, hay: &Vec<char>) -> (r: bool)
    ensures
        r == occurs_in(needle@, hay@),
{
    let n = needle.len();
    let h = hay.len();
    if n > h {
        return false;
    }
    let mut i: usize = 0;
    while i <= h - n
        invariant
            n == needle@.len(),
            h == hay@.len(),
            n <= h,
            i <= h - n + 1,
            forall|j: int| 0 <= j < i ==> #[trigger] hay@.subrange(j, j + n) != needle@,
        decreases h - n + 1 - i,
    {
        let mut k: usize = 0;
        while k < n && hay[i + k] == needle[k]
            invariant
                n == needle@.len(),
                h == hay@.len(),
                i + n <= h,
                k <= n,
                forall|t: int| 0 <= t < k ==> hay@[i + t] == needle@[t],
            decreases n - k,
        {
            k = k + 1;
        }
        if k == n {
            assert(hay@.subrange(i as int, i + n) =~= needle@);
            return true;
        }
        assert(hay@.subrange(i as int, i + n)[k as int] != needle@[k as int]);
        i = i + 1;
    }
    false
}

/// Relies on `str::to_lowercase`: the result depends on the characters of `s` alone, and an
/// empty string stays empty.
#[verifier::external_body]
pub(crate) fn lowercase(s: &str) -> (r: String)
    ensures
        r@ == lower_of(s@),
        s@.len() == 0 ==> r@.len() == 0,
{
    s.to_lowercase()
}

} // verus!
