//! String order (by character code, as `str`'s `Ord` compares) and a stable sort by string key.
use vstd::prelude::*;

verus! {

/// Whether `a` comes before `b` in the order of `str` (lexicographic by character code).
pub open spec fn text_less(a: Seq<char>, b: Seq<char>) -> bool
    decreases a.len(),
{
    if a.len() == 0 {
        b.len() > 0
    } else if b.len() == 0 {
        false
    } else if a[0] != b[0] {
        (a[0] as u32) < (b[0] as u32)
    } else {
        text_less(a.drop_first(), b.drop_first())
    }
}

/// No text comes before itself.
pub proof fn lemma_text_less_irreflexive(a: Seq<char>)
    ensures
        !text_less(a, a),
    decreases a.len(),
{
    if a.len() > 0 {
        lemma_text_less_irreflexive(a.drop_first());
    }
}

/// The order is transitive.
pub proof fn lemma_text_less_transitive(a: Seq<char>, b: Seq<char>, c: Seq<char>)
    requires
        text_less(a, b),
        text_less(b, c),
    ensures
        text_less(a, c),
    decreases a.len(),
{
    if a.len() > 0 && b.len() > 0 && c.len() > 0 && a[0] == b[0] && b[0] == c[0] {
        lemma_text_less_transitive(a.drop_first(), b.drop_first(), c.drop_first());
    }
}

/// Two different texts are ordered one way or the other.
pub proof fn lemma_text_less_total(a: Seq<char>, b: Seq<char>)
    requires
        a != b,
    ensures
        text_less(a, b) || text_less(b, a),
    decreases a.len(),
{
    if a.len() == 0 && b.len() == 0 {
        assert(a =~= b);
    }
    if a.len() > 0 && b.len() > 0 && a[0] == b[0] {
        if a.drop_first() == b.drop_first() {
            assert(a =~= seq![a[0]] + a.drop_first());
            assert(b =~= seq![b[0]] + b.drop_first());
        }
        lemma_text_less_total(a.drop_first(), b.drop_first());
    }
    if a.len() > 0 && b.len() > 0 && a[0] != b[0] {
        let x = a[0];
        let y = b[0];
        vstd::utf8::char_u32_cast(x, x as u32);
        vstd::utf8::char_u32_cast(y, y as u32);
        assert((x as u32) != (y as u32));
    }
}

/// Whether `a` comes before `b`.
pub fn text_before(a: &[char], b: &[char]) -> (res: bool)
    ensures
        res == text_less(a@, b@),
{
    let mut i: usize = 0;
    assert(a@.skip(0) =~= a@);
    assert(b@.skip(0) =~= b@);
    while i < a.len() && i < b.len() && a[i] == b[i]
        invariant
            i <= a@.len(),
            i <= b@.len(),
            text_less(a@, b@) == text_less(a@.skip(i as int), b@.skip(i as int)),
        decreases a@.len() - i,
    {
        assert(a@.skip(i as int).drop_first() =~= a@.skip(i + 1));
        assert(b@.skip(i as int).drop_first() =~= b@.skip(i + 1));
        i += 1;
    }
    if i == a.len() {
        i < b.len()
    } else if i == b.len() {
        false
    } else {
        (a[i] as u32) < (b[i] as u32)
    }
}

/// Values that are sorted by a text key.
pub trait SortKey {
    /// The key of the value.
    spec fn sort_key(&self) -> Seq<char>;

    /// The characters of the key.
    fn key_chars(&self) -> (out: Vec<char>)
        ensures
            out@ == self.sort_key(),
    ;
}

/// The elements of `s` whose key is `k`, in order.
pub open spec fn with_key<T: SortKey>(s: Seq<T>, k: Seq<char>) -> Seq<T>
    decreases s.len(),
{
    if s.len() == 0 {
        Seq::empty()
    } else {
        let prev = with_key(s.drop_last(), k);
        if s.last().sort_key() == k {
            prev.push(s.last())
        } else {
            prev
        }
    }
}

/// `s` is in key order.
pub open spec fn sorted_by_key<T: SortKey>(s: Seq<T>) -> bool {
    forall|i: int, j: int| 0 <= i < j < s.len() ==> !text_less(s[j].sort_key(), s[i].sort_key())
}

/// `out` is `input` sorted stably by key: in key order, and with the elements of each key in
/// the order they came in.
pub open spec fn stably_sorted<T: SortKey>(input: Seq<T>, out: Seq<T>) -> bool {
    &&& sorted_by_key(out)
    &&& forall|k: Seq<char>| #[trigger] with_key(out, k) == with_key(input, k)
}

proof fn lemma_with_key_append<T: SortKey>(a: Seq<T>, b: Seq<T>, k: Seq<char>)
    ensures
        with_key(a + b, k) == with_key(a, k) + with_key(b, k),
    decreases b.len(),
{
    if b.len() == 0 {
        assert(a + b =~= a);
        assert(with_key(a, k) + with_key(b, k) =~= with_key(a, k));
    } else {
        lemma_with_key_append(a, b.drop_last(), k);
        assert((a + b).drop_last() =~= a + b.drop_last());
        assert((a + b).last() == b.last());
        if b.last().sort_key() == k {
            assert(with_key(a, k) + with_key(b.drop_last(), k).push(b.last()) =~= (with_key(a, k)
                + with_key(b.drop_last(), k)).push(b.last()));
        }
    }
}

proof fn lemma_with_key_absent<T: SortKey>(s: Seq<T>, k: Seq<char>)
    requires
        forall|i: int| 0 <= i < s.len() ==> #[trigger] s[i].sort_key() != k,
    ensures
        with_key(s, k) == Seq::<T>::empty(),
    decreases s.len(),
{
    if s.len() > 0 {
        lemma_with_key_absent(s.drop_last(), k);
    }
}

/// Sorts `v` by key, keeping elements with equal keys in the order they came in.
pub fn stable_sort<T: SortKey>(v: Vec<T>) -> (out: Vec<T>)
    ensures
        stably_sorted(v@, out@),
        out@.len() == v@.len(),
{
    let ghost input = v@;
    let mut rest = v;
    let mut out: Vec<T> = Vec::new();
    let ghost mut taken: int = 0;
    while rest.len() > 0
        invariant
            0 <= taken <= input.len(),
            rest@ == input.skip(taken),
            sorted_by_key(out@),
            out@.len() == taken,
            forall|k: Seq<char>| #[trigger] with_key(out@, k) == with_key(input.take(taken), k),
        decreases rest@.len(),
    {
        let ghost old_rest = rest@;
        let x = rest.remove(0);
        assert(x == input[taken]) by {
            assert(old_rest[0] == input.skip(taken)[0]);
        }
        let kx = x.key_chars();
        let mut p: usize = 0;
        while p < out.len() && !text_before(&kx, &out[p].key_chars())
            invariant
                p <= out@.len(),
                kx@ == x.sort_key(),
                forall|i: int| 0 <= i < p ==> !text_less(x.sort_key(), #[trigger] out@[i].sort_key()),
            decreases out@.len() - p,
        {
            p += 1;
        }
        let ghost before = out@;
        proof {
            assert forall|i: int| p <= i < before.len() implies text_less(
                x.sort_key(),
                #[trigger] before[i].sort_key(),
            ) by {
                if i > p {
                    if !text_less(before[p as int].sort_key(), before[i].sort_key()) {
                        assert(!text_less(before[i].sort_key(), before[p as int].sort_key()));
                        if before[p as int].sort_key() != before[i].sort_key() {
                            lemma_text_less_total(before[p as int].sort_key(), before[i].sort_key());
                        }
                    } else {
                        lemma_text_less_transitive(
                            x.sort_key(),
                            before[p as int].sort_key(),
                            before[i].sort_key(),
                        );
                    }
                }
            }
        }
        out.insert(p, x);
        proof {
            let ghost nt = taken + 1;
            assert(input.take(nt) =~= input.take(taken).push(x));
            assert(out@ =~= before.take(p as int) + seq![x] + before.skip(p as int));
            assert(before =~= before.take(p as int) + before.skip(p as int));
            let t = before.take(p as int);
            let u = before.skip(p as int);
            assert(input.take(nt).drop_last() =~= input.take(taken));
            assert(input.take(nt).last() == x);
            assert(seq![x].drop_last() =~= Seq::<T>::empty());
            assert forall|k: Seq<char>| #[trigger] with_key(out@, k) == with_key(input.take(nt), k) by {
                assert(seq![x].drop_last() =~= Seq::<T>::empty());
                assert(seq![x].last() == x);
                assert(with_key(Seq::<T>::empty(), k) == Seq::<T>::empty());
                lemma_with_key_append(t + seq![x], u, k);
                lemma_with_key_append(t, seq![x], k);
                lemma_with_key_append(t, u, k);
                if k == x.sort_key() {
                    assert forall|i: int| 0 <= i < u.len() implies #[trigger] u[i].sort_key() != k by {
                        assert(u[i] == before[p + i]);
                        lemma_text_less_irreflexive(k);
                    }
                    lemma_with_key_absent(u, k);
                    assert(with_key(seq![x], k) =~= seq![x]);
                    assert(with_key(t, k) + Seq::<T>::empty() =~= with_key(t, k));
                    assert(with_key(t, k) + seq![x] + Seq::<T>::empty() =~= with_key(t, k).push(x));
                } else {
                    assert(with_key(seq![x], k) =~= Seq::<T>::empty());
                    assert(with_key(t, k) + Seq::<T>::empty() =~= with_key(t, k));
                }
            }
            assert forall|i: int, j: int| 0 <= i < j < out@.len() implies !text_less(
                out@[j].sort_key(),
                out@[i].sort_key(),
            ) by {
                if j < p {
                    assert(out@[i] == before[i] && out@[j] == before[j]);
                } else if j == p {
                    assert(out@[i] == before[i]);
                } else if i == p {
                    assert(out@[j] == before[j - 1]);
                    if text_less(before[j - 1].sort_key(), x.sort_key()) {
                        lemma_text_less_transitive(
                            before[j - 1].sort_key(),
                            x.sort_key(),
                            before[j - 1].sort_key(),
                        );
                        lemma_text_less_irreflexive(before[j - 1].sort_key());
                    }
                } else if i < p {
                    assert(out@[i] == before[i] && out@[j] == before[j - 1]);
                } else {
                    assert(out@[i] == before[i - 1] && out@[j] == before[j - 1]);
                }
            }
            assert(rest@ =~= input.skip(nt));
            taken = nt;
        }
    }
    proof {
        assert(input.take(taken) =~= input);
    }
    out
}

proof fn lemma_with_key_witness<T: SortKey>(s: Seq<T>, k: Seq<char>) -> (i: int)
    requires
        with_key(s, k).len() > 0,
    ensures
        0 <= i < s.len(),
        s[i].sort_key() == k,
    decreases s.len(),
{
    if s.len() == 0 {
        0
    } else if s.last().sort_key() == k {
        s.len() - 1
    } else {
        let j = lemma_with_key_witness(s.drop_last(), k);
        assert(s.drop_last()[j] == s[j]);
        j
    }
}

proof fn lemma_sorted_same_keys<T: SortKey>(a: Seq<T>, b: Seq<T>)
    requires
        sorted_by_key(a),
        sorted_by_key(b),
        forall|k: Seq<char>| #[trigger] with_key(a, k) == with_key(b, k),
    ensures
        a == b,
    decreases a.len() + b.len(),
{
    if a.len() == 0 && b.len() == 0 {
        assert(a =~= b);
    } else if a.len() == 0 {
        let k = b.last().sort_key();
        assert(with_key(b, k).len() > 0);
        assert(with_key(a, k) == Seq::<T>::empty());
    } else if b.len() == 0 {
        let k = a.last().sort_key();
        assert(with_key(a, k).len() > 0);
        assert(with_key(b, k) == Seq::<T>::empty());
    } else {
        let ka = a.last().sort_key();
        let kb = b.last().sort_key();
        assert(with_key(a, ka).len() > 0);
        assert(with_key(b, kb).len() > 0);
        assert(with_key(b, ka) == with_key(a, ka));
        assert(with_key(a, kb) == with_key(b, kb));
        let i = lemma_with_key_witness(b, ka);
        let j = lemma_with_key_witness(a, kb);
        if ka != kb {
            lemma_text_less_total(ka, kb);
            if text_less(ka, kb) {
                assert(j < a.len() - 1);
                assert(!text_less(a[a.len() - 1].sort_key(), a[j].sort_key()));
            } else {
                assert(i < b.len() - 1);
                assert(!text_less(b[b.len() - 1].sort_key(), b[i].sort_key()));
            }
        }
        assert(a.last() == with_key(a, ka).last());
        assert(b.last() == with_key(b, ka).last());
        let a2 = a.drop_last();
        let b2 = b.drop_last();
        assert forall|k: Seq<char>| #[trigger] with_key(a2, k) == with_key(b2, k) by {
            assert(with_key(a, k) == with_key(b, k));
            if k == ka {
                assert(with_key(a2, k) =~= with_key(a, k).drop_last());
                assert(with_key(b2, k) =~= with_key(b, k).drop_last());
            }
        }
        assert(sorted_by_key(a2)) by {
            assert forall|x: int, y: int| 0 <= x < y < a2.len() implies !text_less(
                a2[y].sort_key(),
                a2[x].sort_key(),
            ) by {
                assert(a2[x] == a[x] && a2[y] == a[y]);
            }
        }
        assert(sorted_by_key(b2)) by {
            assert forall|x: int, y: int| 0 <= x < y < b2.len() implies !text_less(
                b2[y].sort_key(),
                b2[x].sort_key(),
            ) by {
                assert(b2[x] == b[x] && b2[y] == b[y]);
            }
        }
        lemma_sorted_same_keys(a2, b2);
        assert(a =~= a2.push(a.last()));
        assert(b =~= b2.push(b.last()));
    }
}

/// A stable sort has one outcome: two stable sorts of the same values are the same
/// sequence.
pub proof fn law_stable_sort_is_unique<T: SortKey>(input: Seq<T>, a: Seq<T>, b: Seq<T>)
    requires
        stably_sorted(input, a),
        stably_sorted(input, b),
    ensures
        a == b,
{
    assert forall|k: Seq<char>| #[trigger] with_key(a, k) == with_key(b, k) by {
        assert(with_key(a, k) == with_key(input, k));
        assert(with_key(b, k) == with_key(input, k));
    }
    lemma_sorted_same_keys(a, b);
}

} // verus!
