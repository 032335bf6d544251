//! Knowledge-set primitives: membership tests, set differences and the
//! duplicate-free merge that the gossip protocol is built on.

use vstd::prelude::*;

verus! {

/// The values of `a` that do not occur in `b`, in the order `a` gives them:
/// the delta one side of a gossip exchange sends to the other.
pub open spec fn delta(a: Seq<usize>, b: Seq<usize>) -> Seq<usize> {
    a.filter(|x: usize| !b.contains(x))
}

/// `base` extended with every value of `news` not already present,
/// first occurrence first; the receiver's merge of a gossip payload.
pub open spec fn merge_new(base: Seq<usize>, news: Seq<usize>) -> Seq<usize>
    decreases news.len(),
{
    if news.len() == 0 {
        base
    } else {
        let grown = if base.contains(news[0]) {
            base
        } else {
            base.push(news[0])
        };
        merge_new(grown, news.drop_first())
    }
}

/// Strictly ascending: sorted and free of duplicates at once.
pub open spec fn sorted_strict(s: Seq<usize>) -> bool {
    forall|i: int, j: int| 0 <= i < j < s.len() ==> s[i] < s[j]
}

/// Folding one more value into a merge either leaves the result unchanged
/// (value already merged) or appends it at the end.
pub proof fn lemma_merge_new_push(base: Seq<usize>, news: Seq<usize>, x: usize)
    ensures
        merge_new(base, news.push(x)) == (if merge_new(base, news).contains(x) {
            merge_new(base, news)
        } else {
            merge_new(base, news).push(x)
        }),
    decreases news.len(),
{
    let whole = news.push(x);
    if news.len() == 0 {
        let grown = if base.contains(x) {
            base
        } else {
            base.push(x)
        };
        assert(whole[0] == x);
        assert(whole.drop_first() =~= Seq::<usize>::empty());
        assert(merge_new(grown, whole.drop_first()) == grown);
        assert(merge_new(base, whole) == grown);
        assert(merge_new(base, news) == base);
    } else {
        let grown = if base.contains(news[0]) {
            base
        } else {
            base.push(news[0])
        };
        assert(whole[0] == news[0]);
        assert(whole.drop_first() =~= news.drop_first().push(x));
        assert(merge_new(base, whole) == merge_new(grown, news.drop_first().push(x)));
        assert(merge_new(base, news) == merge_new(grown, news.drop_first()));
        lemma_merge_new_push(grown, news.drop_first(), x);
    }
}

/// Belief monotonicity: merging news into a duplicate-free belief keeps the
/// old belief as a prefix (nothing is ever retracted), introduces no
/// duplicates, and yields exactly the union of the two value sets.
pub proof fn lemma_merge_new_props(base: Seq<usize>, news: Seq<usize>)
    requires
        base.no_duplicates(),
    ensures
        merge_new(base, news).no_duplicates(),
        base.is_prefix_of(merge_new(base, news)),
        merge_new(base, news).to_set() == base.to_set().union(news.to_set()),
        merge_new(base, news).len() >= base.len(),
    decreases news.len(),
{
    broadcast use Seq::lemma_push_to_set_commute;

    if news.len() == 0 {
        assert(base.is_prefix_of(base)) by {
            assert(base.subrange(0, base.len() as int) =~= base);
        }
        assert(merge_new(base, news).to_set() =~= base.to_set().union(news.to_set()));
    } else {
        let x = news[0];
        let grown = if base.contains(x) {
            base
        } else {
            base.push(x)
        };
        assert(grown.no_duplicates()) by {
            if !base.contains(x) {
                assert(forall|i: int|
                    0 <= i < base.len() ==> #[trigger] grown[i] == base[i]);
                assert(grown.last() == x);
            }
        }
        assert(base.is_prefix_of(grown)) by {
            assert(grown.subrange(0, base.len() as int) =~= base);
        }
        assert(grown.to_set() == base.to_set().insert(x)) by {
            if base.contains(x) {
                assert(grown.to_set() =~= base.to_set().insert(x));
            }
        }
        lemma_merge_new_props(grown, news.drop_first());
        let out = merge_new(base, news);
        assert(out == merge_new(grown, news.drop_first()));
        assert(base.is_prefix_of(out)) by {
            assert(grown.subrange(0, base.len() as int)
                == out.subrange(0, grown.len() as int).subrange(0, base.len() as int));
            assert(out.subrange(0, grown.len() as int).subrange(0, base.len() as int)
                =~= out.subrange(0, base.len() as int));
        }
        assert(news.to_set() == news.drop_first().to_set().insert(x)) by {
            assert forall|y: usize| news.to_set().contains(y) implies
                news.drop_first().to_set().insert(x).contains(y)
            by {
                let w = choose|w: int| 0 <= w < news.len() && news[w] == y;
                if w > 0 {
                    assert(news.drop_first()[w - 1] == y);
                }
            }
            assert forall|y: usize| news.drop_first().to_set().insert(x).contains(y) implies
                news.to_set().contains(y)
            by {
                if y != x && news.drop_first().to_set().contains(y) {
                    let w = choose|w: int|
                        0 <= w < news.drop_first().len() && news.drop_first()[w] == y;
                    assert(news[w + 1] == y);
                } else {
                    assert(news[0] == x);
                }
            }
            assert(news.to_set() =~= news.drop_first().to_set().insert(x));
        }
        assert(out.to_set() =~= base.to_set().union(news.to_set()));
    }
}

/// Receiving the same news twice is harmless: the second union changes
/// nothing, so redundant gossip deliveries are self-correcting.
pub proof fn lemma_remerge_idempotent(s: Set<usize>, n: Set<usize>)
    ensures
        s.union(n).union(n) == s.union(n),
{
    assert(s.union(n).union(n) =~= s.union(n));
}

/// Linear membership scan.
pub fn vec_contains(v: &Vec<usize>, x: usize) -> (b: bool)
    ensures
        b == v@.contains(x),
{
    let mut i: usize = 0;
    while i < v.len()
        invariant
            0 <= i <= v@.len(),
            forall|j: int| 0 <= j < i ==> v@[j] != x,
        decreases v@.len() - i,
    {
        if v[i] == x {
            return true;
        }
        i = i + 1;
    }
    false
}

/// A knowledge set in its strictly sorted form is canonical: two strictly
/// sorted sequences over the same value set are the same sequence. The
/// set-level contracts on recording values therefore pin the resulting
/// sequence down exactly.
pub proof fn lemma_sorted_unique(a: Seq<usize>, b: Seq<usize>)
    requires
        sorted_strict(a),
        sorted_strict(b),
        a.to_set() == b.to_set(),
    ensures
        a == b,
    decreases a.len(),
{
    if a.len() == 0 {
        if b.len() > 0 {
            assert(b.to_set().contains(b[0]));
            assert(a.contains(b[0]));
        }
        assert(a =~= b);
    } else {
        assert(a.to_set().contains(a.last()));
        assert(b.to_set().contains(b.last()));
        assert(a.last() == b.last()) by {
            let i = choose|i: int| 0 <= i < b.len() && b[i] == a.last();
            assert(b[i] <= b.last());
            let j = choose|j: int| 0 <= j < a.len() && a[j] == b.last();
            assert(a[j] <= a.last());
        }
        assert(a.drop_last().to_set() =~= a.to_set().remove(a.last())) by {
            assert forall|x: usize| a.drop_last().to_set().contains(x) implies
                a.to_set().remove(a.last()).contains(x)
            by {
                let i = choose|i: int|
                    0 <= i < a.drop_last().len() && a.drop_last()[i] == x;
                assert(a[i] == x && a[i] < a.last());
            }
            assert forall|x: usize| a.to_set().remove(a.last()).contains(x) implies
                a.drop_last().to_set().contains(x)
            by {
                let i = choose|i: int| 0 <= i < a.len() && a[i] == x;
                assert(i < a.len() - 1);
                assert(a.drop_last()[i] == x);
            }
        }
        assert(b.drop_last().to_set() =~= b.to_set().remove(b.last())) by {
            assert forall|x: usize| b.drop_last().to_set().contains(x) implies
                b.to_set().remove(b.last()).contains(x)
            by {
                let i = choose|i: int|
                    0 <= i < b.drop_last().len() && b.drop_last()[i] == x;
                assert(b[i] == x && b[i] < b.last());
            }
            assert forall|x: usize| b.to_set().remove(b.last()).contains(x) implies
                b.drop_last().to_set().contains(x)
            by {
                let i = choose|i: int| 0 <= i < b.len() && b[i] == x;
                assert(i < b.len() - 1);
                assert(b.drop_last()[i] == x);
            }
        }
        lemma_sorted_unique(a.drop_last(), b.drop_last());
        assert(b.len() > 0) by {
            assert(b.to_set().contains(a.last()));
        }
        assert(a.len() == b.len()) by {
            assert(a.drop_last().len() == b.drop_last().len());
        }
        assert forall|i: int| 0 <= i < a.len() implies a[i] == b[i] by {
            if i < a.len() - 1 {
                assert(a.drop_last()[i] == b.drop_last()[i]);
            }
        }
        assert(a =~= b);
    }
}

/// A fresh copy of a value vector.
pub(crate) fn clone_values(v: &Vec<usize>) -> (r: Vec<usize>)
    ensures
        r@ == v@,
{
    let mut r: Vec<usize> = Vec::new();
    let mut i: usize = 0;
    while i < v.len()
        invariant
            i <= v@.len(),
            r@ == v@.subrange(0, i as int),
        decreases v@.len() - i,
    {
        r.push(v[i]);
        proof {
            assert(v@.subrange(0, i + 1)
                =~= v@.subrange(0, i as int).push(v@[i as int]));
        }
        i = i + 1;
    }
    proof {
        assert(v@.subrange(0, v@.len() as int) =~= v@);
    }
    r
}

/// A fresh copy of a vector of strings, element views preserved.
pub(crate) fn clone_strings(v: &Vec<String>) -> (r: Vec<String>)
    ensures
        r@.len() == v@.len(),
        forall|i: int| 0 <= i < v@.len() ==> (#[trigger] r@[i])@ == v@[i]@,
        r.deep_view() == v.deep_view(),
{
    let mut r: Vec<String> = Vec::new();
    let mut i: usize = 0;
    while i < v.len()
        invariant
            i <= v@.len(),
            r@.len() == i,
            forall|j: int| 0 <= j < i ==> (#[trigger] r@[j])@ == v@[j]@,
        decreases v@.len() - i,
    {
        r.push(v[i].clone());
        i = i + 1;
    }
    proof {
        assert(r.deep_view() =~= v.deep_view());
    }
    r
}

/// The values of `local` that `remote` lacks, in `local`'s order.
pub fn compare_knowledge(local: &Vec<usize>, remote: &Vec<usize>) -> (r: Vec<usize>)
    ensures
        r@ == delta(local@, remote@),
{
    let mut r: Vec<usize> = Vec::new();
    let mut i: usize = 0;
    while i < local.len()
        invariant
            0 <= i <= local@.len(),
            r@ == delta(local@.subrange(0, i as int), remote@),
        decreases local@.len() - i,
    {
        let x = local[i];
        proof {
            reveal(Seq::filter);
            assert(local@.subrange(0, i + 1).drop_last() =~= local@.subrange(0, i as int));
            assert(local@.subrange(0, i + 1).last() == local@[i as int]);
        }
        if !vec_contains(remote, x) {
            r.push(x);
        }
        i = i + 1;
    }
    proof {
        assert(local@.subrange(0, local@.len() as int) =~= local@);
    }
    r
}

} // verus!
