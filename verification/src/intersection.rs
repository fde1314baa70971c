//! Intersection bookkeeping: ordering along a ray, hit selection, and the
//! shadow occlusion test.

use vstd::prelude::*;
use vstd::seq_lib::group_to_multiset_ensures;

verus! {

/// One crossing of a ray with a shape's surface.
///
/// `t_key` stands for the signed distance t along the ray: an integer key
/// whose order agrees with the order of the distances (see
/// [`t_key_from_bits`]). `shape` is the index of the shape in the world's
/// shape list, and `id` a caller-chosen identifier; the world hands them out
/// in increasing order of creation, which records insertion order for
/// stable sorting.
#[derive(Clone, Copy, Debug, PartialEq, Eq, Structural)]
pub struct Intersection {
    pub t_key: i64,
    pub id: u64,
    pub shape: usize,
}

impl Intersection {
    /// An intersection with the given distance key, identifier and shape
    /// index.
    pub fn new(t_key: i64, id: u64, shape: usize) -> (i: Intersection)
        ensures
            i.t_key == t_key,
            i.id == id,
            i.shape == shape,
    {
        Intersection { t_key, id, shape }
    }
}

/// The distance key of an IEEE-754 binary64 bit pattern.
pub open spec fn key_of_bits(bits: u64) -> int {
    if bits < 0x8000_0000_0000_0000 {
        bits as int
    } else {
        -((bits - 0x8000_0000_0000_0000) as int)
    }
}

/// Folds a binary64 bit pattern into an integer key that orders as the
/// encoded values do.
///
/// Sign-magnitude becomes two's complement: a pattern with a clear sign bit
/// maps to its magnitude, one with a set sign bit to the negated magnitude.
/// For patterns that encode numbers (NaN excluded, as hit selection ignores
/// such crossings) the map is monotone in the encoded value, keys are
/// positive exactly for positive values, and both zeros map to key 0.
pub fn t_key_from_bits(bits: u64) -> (key: i64)
    ensures
        key as int == key_of_bits(bits),
{
    if bits < 0x8000_0000_0000_0000 {
        bits as i64
    } else {
        -((bits - 0x8000_0000_0000_0000) as i64)
    }
}

/// Keys order bit patterns the way binary64 orders the numbers they
/// encode: among clear-sign patterns larger bits mean a larger number and a
/// larger key, among set-sign patterns larger bits mean a smaller number
/// and a smaller key, and every set-sign pattern keys at or below every
/// clear-sign pattern.
pub proof fn lemma_key_of_bits_orders(a: u64, b: u64)
    ensures
        a < 0x8000_0000_0000_0000 && b < 0x8000_0000_0000_0000 && a < b ==> key_of_bits(a)
            < key_of_bits(b),
        a >= 0x8000_0000_0000_0000 && b >= 0x8000_0000_0000_0000 && a < b ==> key_of_bits(a)
            > key_of_bits(b),
        a >= 0x8000_0000_0000_0000 && b < 0x8000_0000_0000_0000 ==> key_of_bits(a) <= key_of_bits(
            b,
        ),
{
}

/// Strict order along the ray: by distance key, ties by identifier.
pub open spec fn lex_before(a: Intersection, b: Intersection) -> bool {
    a.t_key < b.t_key || (a.t_key == b.t_key && a.id < b.id)
}

/// Sorted by distance key, ties by identifier.
pub open spec fn lex_sorted(s: Seq<Intersection>) -> bool {
    forall|i: int, j: int| 0 <= i < j < s.len() ==> !lex_before(#[trigger] s[j], #[trigger] s[i])
}

/// Where `x` belongs in `s`: just before the first element it precedes.
pub open spec fn insert_pos(s: Seq<Intersection>, x: Intersection) -> int
    decreases s.len(),
{
    if s.len() == 0 || lex_before(x, s[0]) {
        0
    } else {
        1 + insert_pos(s.drop_first(), x)
    }
}

/// `s` with `x` inserted at its position.
pub open spec fn insert_ordered(s: Seq<Intersection>, x: Intersection) -> Seq<Intersection> {
    s.insert(insert_pos(s, x), x)
}

/// The list sorted by (distance key, identifier): each element of the input,
/// in order, inserted into the sorted prefix.
pub open spec fn sort_spec(s: Seq<Intersection>) -> Seq<Intersection>
    decreases s.len(),
{
    if s.len() == 0 {
        Seq::empty()
    } else {
        insert_ordered(sort_spec(s.drop_last()), s.last())
    }
}

/// The insertion position is the first index whose element `x` precedes.
proof fn lemma_insert_pos_first(s: Seq<Intersection>, x: Intersection)
    ensures
        0 <= insert_pos(s, x) <= s.len(),
        forall|m: int| 0 <= m < insert_pos(s, x) ==> !lex_before(x, #[trigger] s[m]),
        insert_pos(s, x) < s.len() ==> lex_before(x, s[insert_pos(s, x)]),
    decreases s.len(),
{
    if s.len() == 0 || lex_before(x, s[0]) {
    } else {
        lemma_insert_pos_first(s.drop_first(), x);
        assert forall|m: int| 0 <= m < insert_pos(s, x) implies !lex_before(
            x,
            #[trigger] s[m],
        ) by {
            if m > 0 {
                assert(s[m] == s.drop_first()[m - 1]);
            }
        }
        if insert_pos(s, x) < s.len() {
            assert(s[insert_pos(s, x)] == s.drop_first()[insert_pos(s.drop_first(), x)]);
        }
    }
}

/// Any index whose every predecessor `x` does not precede, and whose own
/// element `x` does precede (or the length), is the insertion position.
proof fn lemma_insert_pos_unique(s: Seq<Intersection>, x: Intersection, k: int)
    requires
        0 <= k <= s.len(),
        forall|m: int| 0 <= m < k ==> !lex_before(x, #[trigger] s[m]),
        k < s.len() ==> lex_before(x, s[k]),
    ensures
        insert_pos(s, x) == k,
    decreases s.len(),
{
    if s.len() == 0 || lex_before(x, s[0]) {
    } else {
        assert(forall|m: int| 0 <= m < k - 1 ==> s.drop_first()[m] == s[m + 1]);
        lemma_insert_pos_unique(s.drop_first(), x, k - 1);
    }
}

/// Inserting into a sorted list keeps it sorted.
proof fn lemma_insert_ordered_sorted(s: Seq<Intersection>, x: Intersection)
    requires
        lex_sorted(s),
    ensures
        lex_sorted(insert_ordered(s, x)),
{
    lemma_insert_pos_first(s, x);
    let p = insert_pos(s, x);
    let t = s.insert(p, x);
    assert forall|i: int, j: int| 0 <= i < j < t.len() implies !lex_before(t[j], t[i]) by {
        if i < p && j == p {
            assert(t[i] == s[i]);
            assert(!lex_before(x, s[i]));
        } else if i == p && j > p {
            assert(t[j] == s[j - 1]);
            assert(lex_before(x, s[p]));
            assert(!lex_before(s[j - 1], s[p]));
        } else if i < p && j > p {
            assert(t[i] == s[i] && t[j] == s[j - 1]);
        } else if i > p && j > p {
            assert(t[i] == s[i - 1] && t[j] == s[j - 1]);
        } else if i < p && j < p {
            assert(t[i] == s[i] && t[j] == s[j]);
        }
    }
}

/// Inserting adds exactly the new element to the list's contents.
proof fn lemma_insert_multiset(s: Seq<Intersection>, k: int, x: Intersection)
    requires
        0 <= k <= s.len(),
    ensures
        s.insert(k, x).to_multiset() =~= s.to_multiset().insert(x),
    decreases s.len(),
{
    broadcast use group_to_multiset_ensures;

    if k == s.len() {
        assert(s.insert(k, x) =~= s.push(x));
    } else {
        let d = s.drop_last();
        lemma_insert_multiset(d, k, x);
        assert(s.insert(k, x) =~= d.insert(k, x).push(s.last()));
        assert(s =~= d.push(s.last()));
        assert(d.to_multiset().insert(x).insert(s.last()) =~= d.to_multiset().insert(
            s.last(),
        ).insert(x));
    }
}

/// The sorted list is a permutation of the input.
pub proof fn lemma_sort_permutes(s: Seq<Intersection>)
    ensures
        sort_spec(s).to_multiset() =~= s.to_multiset(),
    decreases s.len(),
{
    broadcast use group_to_multiset_ensures;

    if s.len() == 0 {
    } else {
        let d = s.drop_last();
        lemma_sort_permutes(d);
        lemma_insert_pos_first(sort_spec(d), s.last());
        lemma_insert_multiset(sort_spec(d), insert_pos(sort_spec(d), s.last()), s.last());
        assert(s =~= d.push(s.last()));
    }
}

/// The sorted list is sorted: ascending distance keys, and among equal keys
/// ascending identifiers, which is the input order when identifiers record
/// insertion order.
pub proof fn lemma_sort_sorted(s: Seq<Intersection>)
    ensures
        lex_sorted(sort_spec(s)),
    decreases s.len(),
{
    if s.len() == 0 {
    } else {
        lemma_sort_sorted(s.drop_last());
        lemma_insert_ordered_sorted(sort_spec(s.drop_last()), s.last());
    }
}

/// The sort is stable: when identifiers increase along the input, which is
/// how the world assigns them, two crossings with equal distance keys keep
/// their input order in the sorted list.
pub proof fn lemma_sort_stable(s: Seq<Intersection>, i: int, j: int, p: int, q: int)
    requires
        forall|m: int, n: int| 0 <= m < n < s.len() ==> (#[trigger] s[m]).id < (#[trigger] s[n]).id,
        0 <= i < j < s.len(),
        s[i].t_key == s[j].t_key,
        0 <= p < sort_spec(s).len(),
        0 <= q < sort_spec(s).len(),
        sort_spec(s)[p] == s[i],
        sort_spec(s)[q] == s[j],
    ensures
        p < q,
{
    lemma_sort_sorted(s);
    assert(s[i].id < s[j].id);
    if p == q {
        assert(s[i] == s[j]);
    } else if q < p {
        assert(!lex_before(sort_spec(s)[p], sort_spec(s)[q]));
        assert(lex_before(s[i], s[j]));
    }
}

/// Inserts `x` into the sorted vector `v`, keeping it sorted.
fn insert_sorted(v: &mut Vec<Intersection>, x: Intersection)
    ensures
        final(v)@ == insert_ordered(old(v)@, x),
{
    let mut k: usize = 0;
    while k < v.len() && !(x.t_key < v[k].t_key || (x.t_key == v[k].t_key && x.id < v[k].id))
        invariant
            k <= v@.len(),
            v@ == old(v)@,
            forall|m: int| 0 <= m < k ==> !lex_before(x, #[trigger] v@[m]),
        decreases v@.len() - k,
    {
        k = k + 1;
    }
    proof {
        lemma_insert_pos_unique(v@, x, k as int);
    }
    v.insert(k, x);
}

/// Sorts the crossings along the ray: ascending distance key, ties in
/// ascending identifier order. The result is exactly [`sort_spec`] of the
/// input; [`lemma_sort_sorted`] and [`lemma_sort_permutes`] spell out what
/// that means.
pub fn sort_by_t(v: &mut Vec<Intersection>)
    ensures
        final(v)@ == sort_spec(old(v)@),
{
    let mut out: Vec<Intersection> = Vec::new();
    let mut i: usize = 0;
    while i < v.len()
        invariant
            i <= v@.len(),
            v@ == old(v)@,
            out@ == sort_spec(v@.take(i as int)),
        decreases v@.len() - i,
    {
        insert_sorted(&mut out, v[i]);
        proof {
            let t = v@.take(i + 1);
            assert(t.drop_last() =~= v@.take(i as int));
            assert(t.last() == v@[i as int]);
        }
        i = i + 1;
    }
    proof {
        assert(v@.take(v@.len() as int) =~= v@);
    }
    *v = out;
}

/// The per-shape crossing lists joined in shape order.
pub open spec fn concat_all(ls: Seq<Seq<Intersection>>) -> Seq<Intersection>
    decreases ls.len(),
{
    if ls.len() == 0 {
        Seq::empty()
    } else {
        concat_all(ls.drop_last()) + ls.last()
    }
}

/// One more list extends the concatenation by that list.
proof fn lemma_concat_all_snoc(ls: Seq<Seq<Intersection>>, i: int)
    requires
        0 <= i < ls.len(),
    ensures
        concat_all(ls.take(i + 1)) == concat_all(ls.take(i)) + ls[i],
{
    let t = ls.take(i + 1);
    assert(t.drop_last() =~= ls.take(i));
    assert(t.last() == ls[i]);
}

/// The world's aggregate crossing list: every per-shape list joined in
/// shape order, then sorted along the ray. Equal distance keys keep that
/// insertion order when the identifiers record it.
pub fn gather_sorted(lists: &Vec<Vec<Intersection>>) -> (r: Vec<Intersection>)
    ensures
        r@ == sort_spec(concat_all(lists@.map_values(|v: Vec<Intersection>| v@))),
{
    let ghost views = lists@.map_values(|v: Vec<Intersection>| v@);
    let mut all: Vec<Intersection> = Vec::new();
    proof {
        assert(views.take(0) =~= Seq::<Seq<Intersection>>::empty());
    }
    let mut i: usize = 0;
    while i < lists.len()
        invariant
            i <= lists@.len(),
            views == lists@.map_values(|v: Vec<Intersection>| v@),
            all@ == concat_all(views.take(i as int)),
        decreases lists@.len() - i,
    {
        let inner = &lists[i];
        let mut j: usize = 0;
        while j < inner.len()
            invariant
                j <= inner@.len(),
                inner@ == lists@[i as int]@,
                i < lists@.len(),
                views == lists@.map_values(|v: Vec<Intersection>| v@),
                all@ == concat_all(views.take(i as int)) + inner@.take(j as int),
            decreases inner@.len() - j,
        {
            all.push(inner[j]);
            proof {
                assert(inner@.take(j + 1) =~= inner@.take(j as int).push(inner@[j as int]));
                assert(all@ =~= concat_all(views.take(i as int)) + inner@.take(j + 1));
            }
            j = j + 1;
        }
        proof {
            assert(inner@.take(inner@.len() as int) =~= inner@);
            lemma_concat_all_snoc(views, i as int);
            assert(views[i as int] == inner@);
        }
        i = i + 1;
    }
    proof {
        assert(views.take(views.len() as int) =~= views);
    }
    sort_by_t(&mut all);
    all
}

/// The first crossing with a strictly positive distance key, scanning in
/// list order; `None` when every crossing lies at or behind the origin.
pub open spec fn first_hit(s: Seq<Intersection>) -> Option<Intersection>
    decreases s.len(),
{
    if s.len() == 0 {
        None
    } else if s[0].t_key > 0 {
        Some(s[0])
    } else {
        first_hit(s.drop_first())
    }
}

/// Selection of the visible crossing from a list of crossings.
pub trait Hit {
    /// The crossing that hit selection must return.
    spec fn hit_spec(&self) -> Option<Intersection>;

    /// The first crossing strictly in front of the ray origin, if any.
    fn hit(&self) -> (h: Option<Intersection>)
        ensures
            h == self.hit_spec(),
    ;
}

impl Hit for Vec<Intersection> {
    open spec fn hit_spec(&self) -> Option<Intersection> {
        first_hit(self@)
    }

    fn hit(&self) -> (h: Option<Intersection>) {
        proof {
            assert(self@.skip(0) =~= self@);
        }
        let mut k: usize = 0;
        while k < self.len()
            invariant
                k <= self@.len(),
                first_hit(self@) == first_hit(self@.skip(k as int)),
                forall|m: int| 0 <= m < k ==> (#[trigger] self@[m]).t_key <= 0,
            decreases self@.len() - k,
        {
            if self[k].t_key > 0 {
                proof {
                    assert(self@.skip(k as int)[0] == self@[k as int]);
                }
                return Some(self[k]);
            }
            proof {
                assert(self@.skip(k as int)[0] == self@[k as int]);
                assert(self@.skip(k as int).drop_first() =~= self@.skip(k + 1));
            }
            k = k + 1;
        }
        proof {
            assert(self@.skip(k as int).len() == 0);
        }
        None
    }
}

/// On a sorted list the selected hit is a closest positive crossing: every
/// positive crossing lies at least as far, and when nothing is selected no
/// crossing is positive.
pub proof fn lemma_hit_least_positive(s: Seq<Intersection>)
    requires
        lex_sorted(s),
    ensures
        match first_hit(s) {
            Some(h) => h.t_key > 0 && s.contains(h) && forall|i: int|
                0 <= i < s.len() && (#[trigger] s[i]).t_key > 0 ==> h.t_key <= s[i].t_key,
            None => forall|i: int| 0 <= i < s.len() ==> (#[trigger] s[i]).t_key <= 0,
        },
    decreases s.len(),
{
    if s.len() == 0 {
    } else if s[0].t_key > 0 {
        assert forall|i: int| 0 <= i < s.len() && (#[trigger] s[i]).t_key > 0 implies s[0].t_key
            <= s[i].t_key by {
            if i > 0 {
                assert(!lex_before(s[i], s[0]));
            }
        }
        assert(s.contains(s[0]));
    } else {
        let d = s.drop_first();
        assert forall|i: int, j: int| 0 <= i < j < d.len() implies !lex_before(
            #[trigger] d[j],
            #[trigger] d[i],
        ) by {
            assert(d[i] == s[i + 1]);
            assert(d[j] == s[j + 1]);
        }
        lemma_hit_least_positive(d);
        match first_hit(d) {
            Some(h) => {
                let w = choose|w: int| 0 <= w < d.len() && d[w] == h;
                assert(s[w + 1] == h);
                assert(s.contains(h));
                assert forall|i: int|
                    0 <= i < s.len() && (#[trigger] s[i]).t_key > 0 implies h.t_key
                    <= s[i].t_key by {
                    if i >= 1 {
                        assert(s[i] == d[i - 1]);
                    }
                }
            },
            None => {
                assert forall|i: int| 0 <= i < s.len() implies (#[trigger] s[i]).t_key <= 0 by {
                    if i >= 1 {
                        assert(s[i] == d[i - 1]);
                    }
                }
            },
        }
    }
}

/// Whether the closest positive crossing lies strictly nearer than
/// `distance_key`: the shadow test, with the distance to the light encoded
/// as a key the same way the crossings' distances are.
pub fn occluded_before(xs: &Vec<Intersection>, distance_key: i64) -> (b: bool)
    ensures
        b == match first_hit(xs@) {
            Some(h) => h.t_key < distance_key,
            None => false,
        },
{
    match xs.hit() {
        Some(h) => h.t_key < distance_key,
        None => false,
    }
}

} // verus!
