//! Lists of nodes: membership, filters, and lists without some of their
//! members.

use vstd::prelude::*;

verus! {

/// A member of a concatenation is a member of one of its parts.
pub proof fn lemma_contains_add<A>(a: Seq<A>, b: Seq<A>, y: A)
    ensures
        (a + b).contains(y) <==> a.contains(y) || b.contains(y),
{
    if (a + b).contains(y) {
        let k = choose|k: int| 0 <= k < (a + b).len() && (a + b)[k] == y;
        if k < a.len() {
            assert(a[k] == y);
        } else {
            assert(b[k - a.len()] == y);
        }
    }
    if a.contains(y) {
        let k = choose|k: int| 0 <= k < a.len() && a[k] == y;
        assert((a + b)[k] == y);
    }
    if b.contains(y) {
        let k = choose|k: int| 0 <= k < b.len() && b[k] == y;
        assert((a + b)[k + a.len()] == y);
    }
}

/// A filter keeps exactly the members that pass.
pub proof fn lemma_filter_member(s: Seq<usize>, pred: spec_fn(usize) -> bool, y: usize)
    ensures
        s.filter(pred).contains(y) <==> s.contains(y) && pred(y),
{
    if s.filter(pred).contains(y) {
        s.lemma_filter_contains_rev(pred, y);
        let k = choose|k: int| 0 <= k < s.filter(pred).len() && s.filter(pred)[k] == y;
        s.lemma_filter_pred(pred, k);
    }
    if s.contains(y) && pred(y) {
        let k = choose|k: int| 0 <= k < s.len() && s[k] == y;
        s.lemma_filter_contains(pred, k);
    }
}

/// A filter that nothing passes keeps nothing.
pub proof fn lemma_filter_none(s: Seq<usize>, pred: spec_fn(usize) -> bool)
    requires
        forall|i: int| 0 <= i < s.len() ==> !pred(#[trigger] s[i]),
    ensures
        s.filter(pred) == Seq::<usize>::empty(),
{
    if s.filter(pred).len() > 0 {
        let y = s.filter(pred)[0];
        assert(s.filter(pred).contains(y));
        lemma_filter_member(s, pred, y);
        let k = choose|k: int| 0 <= k < s.len() && s[k] == y;
        assert(!pred(s[k]));
    }
    assert(s.filter(pred) =~= Seq::<usize>::empty());
}

/// What is among a list is its first or among the rest.
pub proof fn lemma_contains_first_rest(xs: Seq<usize>, y: usize)
    requires
        xs.len() > 0,
    ensures
        xs.contains(y) <==> y == xs[0] || xs.drop_first().contains(y),
{
    let rest = xs.drop_first();
    if xs.contains(y) {
        let k = choose|k: int| 0 <= k < xs.len() && xs[k] == y;
        if k > 0 {
            assert(rest[k - 1] == y);
        }
    }
    if rest.contains(y) {
        let k = choose|k: int| 0 <= k < rest.len() && rest[k] == y;
        assert(xs[k + 1] == y);
    }
    if y == xs[0] {
        assert(xs[0] == y);
    }
}

/// A filter of a list without repeats is without repeats.
pub proof fn lemma_filter_no_duplicates(s: Seq<usize>, pred: spec_fn(usize) -> bool)
    requires
        s.no_duplicates(),
    ensures
        s.filter(pred).no_duplicates(),
    decreases s.len(),
{
    reveal(Seq::filter);
    if s.len() > 0 {
        let rest = s.drop_last();
        let last = s.last();
        assert(rest.no_duplicates()) by {
            assert forall|a: int, b: int| 0 <= a < rest.len() && 0 <= b < rest.len() && a
                != b implies rest[a] != rest[b] by {
                assert(rest[a] == s[a]);
                assert(rest[b] == s[b]);
            }
        }
        lemma_filter_no_duplicates(rest, pred);
        if pred(last) {
            let kept = rest.filter(pred);
            assert forall|a: int, b: int|
                0 <= a < kept.push(last).len() && 0 <= b < kept.push(last).len() && a
                != b implies kept.push(last)[a] != kept.push(last)[b] by {
                if a == kept.len() || b == kept.len() {
                    let other = if a == kept.len() {
                        b
                    } else {
                        a
                    };
                    assert(kept.contains(kept[other]));
                    lemma_filter_member(rest, pred, kept[other]);
                    let k = choose|k: int| 0 <= k < rest.len() && rest[k] == kept[other];
                    assert(s[k] == kept[other]);
                    assert(s[s.len() - 1] == last);
                }
            }
        }
    }
}

/// The members of `s` that are not among `xs`, in their order.
pub open spec fn without(s: Seq<usize>, xs: Seq<usize>) -> Seq<usize>
    decreases s.len(),
{
    if s.len() == 0 {
        s
    } else if xs.contains(s[0]) {
        without(s.drop_first(), xs)
    } else {
        seq![s[0]] + without(s.drop_first(), xs)
    }
}

/// What is left of a list depends only on which of its members are taken.
pub proof fn lemma_without_same(s: Seq<usize>, xs: Seq<usize>, ys: Seq<usize>)
    requires
        forall|i: int| 0 <= i < s.len() ==> xs.contains(#[trigger] s[i]) == ys.contains(s[i]),
    ensures
        without(s, xs) == without(s, ys),
    decreases s.len(),
{
    if s.len() > 0 {
        let rest = s.drop_first();
        assert(xs.contains(s[0]) == ys.contains(s[0]));
        assert forall|i: int| 0 <= i < rest.len() implies xs.contains(#[trigger] rest[i])
            == ys.contains(rest[i]) by {
            assert(rest[i] == s[i + 1]);
        }
        lemma_without_same(rest, xs, ys);
    }
}

/// Taking nothing leaves the list.
pub proof fn lemma_without_none(s: Seq<usize>, xs: Seq<usize>)
    requires
        forall|i: int| 0 <= i < s.len() ==> !xs.contains(#[trigger] s[i]),
    ensures
        without(s, xs) == s,
    decreases s.len(),
{
    if s.len() > 0 {
        let rest = s.drop_first();
        assert(!xs.contains(s[0]));
        assert forall|i: int| 0 <= i < rest.len() implies !xs.contains(#[trigger] rest[i]) by {
            assert(rest[i] == s[i + 1]);
        }
        lemma_without_none(rest, xs);
        assert(seq![s[0]] + rest =~= s);
    }
}

/// What is left is part of the list, and holds none of what was taken.
pub proof fn lemma_without_member(s: Seq<usize>, xs: Seq<usize>, y: usize)
    ensures
        without(s, xs).contains(y) <==> s.contains(y) && !xs.contains(y),
    decreases s.len(),
{
    if s.len() > 0 {
        let rest = s.drop_first();
        lemma_without_member(rest, xs, y);
        lemma_contains_first_rest(s, y);
        if !xs.contains(s[0]) {
            lemma_contains_add(seq![s[0]], without(rest, xs), y);
            if seq![s[0]].contains(y) {
                let k = choose|k: int| 0 <= k < seq![s[0]].len() && seq![s[0]][k] == y;
                assert(y == s[0]);
            }
            if y == s[0] {
                assert(seq![s[0]][0] == y);
            }
        }
    }
}

/// Taking one member out of a list without repeats, and then others, is
/// taking all of them.
pub proof fn lemma_without_remove(
    s: Seq<usize>,
    i: int,
    rest: Seq<usize>,
    xs: Seq<usize>,
)
    requires
        s.no_duplicates(),
        0 <= i < s.len(),
        forall|y: usize| xs.contains(y) <==> y == s[i] || rest.contains(y),
    ensures
        without(s.remove(i), rest) == without(s, xs),
    decreases s.len(),
{
    let tail = s.drop_first();
    if i == 0 {
        assert(s.remove(0) =~= tail);
        assert(xs.contains(s[0]));
        assert forall|j: int| 0 <= j < tail.len() implies xs.contains(#[trigger] tail[j])
            == rest.contains(tail[j]) by {
            assert(tail[j] == s[j + 1]);
        }
        lemma_without_same(tail, xs, rest);
    } else {
        assert(s.remove(i).drop_first() =~= tail.remove(i - 1));
        assert(s.remove(i)[0] == s[0]);
        assert(s[0] != s[i]);
        assert(xs.contains(s[0]) == rest.contains(s[0]));
        assert(tail.no_duplicates()) by {
            assert forall|a: int, b: int| 0 <= a < tail.len() && 0 <= b < tail.len() && a
                != b implies tail[a] != tail[b] by {
                assert(tail[a] == s[a + 1]);
                assert(tail[b] == s[b + 1]);
            }
        }
        assert(tail[i - 1] == s[i]);
        lemma_without_remove(tail, i - 1, rest, xs);
    }
}

/// Taking every member leaves nothing.
pub proof fn lemma_without_all(s: Seq<usize>, xs: Seq<usize>)
    requires
        forall|i: int| 0 <= i < s.len() ==> xs.contains(#[trigger] s[i]),
    ensures
        without(s, xs).len() == 0,
    decreases s.len(),
{
    if s.len() > 0 {
        let rest = s.drop_first();
        assert(xs.contains(s[0]));
        assert forall|i: int| 0 <= i < rest.len() implies xs.contains(#[trigger] rest[i]) by {
            assert(rest[i] == s[i + 1]);
        }
        lemma_without_all(rest, xs);
    }
}

} // verus!
