//! Lists of request ids.

use vstd::prelude::*;

verus! {

/// The numbers of `s` other than `id`.
pub open spec fn others(s: Seq<u64>, id: u64) -> Seq<u64>
    decreases s.len(),
{
    if s.len() == 0 {
        s
    } else {
        let rest = others(s.drop_last(), id);
        if s.last() == id {
            rest
        } else {
            rest.push(s.last())
        }
    }
}

/// Takes `id` out of a list.
pub fn remove_id(list: &mut Vec<u64>, id: u64)
    ensures
        final(list)@ == others(old(list)@, id),
        !final(list)@.contains(id),
        forall|x: u64| x != id ==> (#[trigger] final(list)@.contains(x) <==> old(list)@.contains(x)),
{
    let ghost before = list@;
    let mut kept: Vec<u64> = Vec::new();
    let mut i: usize = 0;
    assert(before.take(0) =~= Seq::<u64>::empty());
    while i < list.len()
        invariant
            list@ == before,
            i <= list@.len(),
            kept@ == others(before.take(i as int), id),
        decreases list@.len() - i,
    {
        assert(before.take(i + 1).drop_last() =~= before.take(i as int));
        if list[i] != id {
            kept.push(list[i]);
        }
        i += 1;
    }
    assert(before.take(i as int) =~= before);
    proof {
        lemma_others(before, id);
    }
    *list = kept;
}

/// Whether `id` stands in a list.
pub fn contains_id(list: &Vec<u64>, id: u64) -> (res: bool)
    ensures
        res == list@.contains(id),
{
    let mut i: usize = 0;
    while i < list.len()
        invariant
            i <= list@.len(),
            forall|k: int| 0 <= k < i ==> list@[k] != id,
        decreases list@.len() - i,
    {
        if list[i] == id {
            return true;
        }
        i += 1;
    }
    false
}

/// Taking out an id leaves all others.
pub proof fn lemma_others(s: Seq<u64>, id: u64)
    ensures
        !others(s, id).contains(id),
        forall|x: u64| x != id ==> (#[trigger] others(s, id).contains(x) <==> s.contains(x)),
    decreases s.len(),
{
    if s.len() > 0 {
        let front = s.drop_last();
        lemma_others(front, id);
        let rest = others(front, id);
        let all = others(s, id);
        assert forall|x: u64| #[trigger] all.contains(x) <==> x != id && s.contains(x) by {
            if all.contains(x) {
                let k = choose|k: int| 0 <= k < all.len() && all[k] == x;
                if k < rest.len() {
                    assert(rest[k] == x);
                    assert(rest.contains(x));
                    let j = choose|j: int| 0 <= j < front.len() && front[j] == x;
                    assert(s[j] == x);
                } else {
                    assert(s[s.len() - 1] == x);
                }
            }
            if x != id && s.contains(x) {
                let j = choose|j: int| 0 <= j < s.len() && s[j] == x;
                if j < front.len() {
                    assert(front[j] == x);
                    assert(rest.contains(x));
                    let k = choose|k: int| 0 <= k < rest.len() && rest[k] == x;
                    assert(all[k] == x);
                } else {
                    assert(all[rest.len() as int] == x);
                }
            }
        }
    }
}

/// Taking out an id keeps a list without duplicates and below a bound.
pub proof fn lemma_others_stay_distinct(s: Seq<u64>, id: u64)
    requires
        s.no_duplicates(),
    ensures
        others(s, id).no_duplicates(),
    decreases s.len(),
{
    if s.len() > 0 {
        let front = s.drop_last();
        assert(front.no_duplicates()) by {
            assert forall|i: int, j: int|
                0 <= i < front.len() && 0 <= j < front.len() && i != j implies front[i]
                != front[j] by {
                assert(s[i] != s[j]);
            }
        }
        lemma_others_stay_distinct(front, id);
        lemma_others(front, id);
        let rest = others(front, id);
        let all = others(s, id);
        assert forall|i: int, j: int|
            0 <= i < all.len() && 0 <= j < all.len() && i != j implies all[i] != all[j] by {
            if i < rest.len() && j < rest.len() {
                assert(rest[i] != rest[j]);
            } else {
                let k = if i < rest.len() {
                    i
                } else {
                    j
                };
                if rest[k] == s.last() {
                    assert(rest.contains(s.last()));
                    assert(front.contains(s.last()));
                    let m = choose|m: int| 0 <= m < front.len() && front[m] == s.last();
                    assert(s[m] == s[s.len() - 1]);
                }
            }
        }
    }
}

/// Taking out an id keeps the others in their order.
pub proof fn lemma_others_keep_their_order(s: Seq<u64>, t: Seq<u64>, id: u64)
    ensures
        others(s + t, id) == others(s, id) + others(t, id),
        forall|x: u64| x != id ==> #[trigger] others(seq![x], id) == seq![x],
        others(seq![id], id) == Seq::<u64>::empty(),
    decreases t.len(),
{
    assert forall|x: u64| x != id implies #[trigger] others(seq![x], id) == seq![x] by {
        assert(seq![x].drop_last() =~= Seq::<u64>::empty());
        assert(others(seq![x].drop_last(), id) =~= Seq::<u64>::empty());
        assert(others(seq![x], id) =~= seq![x]);
    }
    assert(seq![id].drop_last() =~= Seq::<u64>::empty());
    assert(others(seq![id].drop_last(), id) =~= Seq::<u64>::empty());
    if t.len() == 0 {
        assert(s + t =~= s);
        assert(others(s, id) + others(t, id) =~= others(s, id));
    } else {
        assert((s + t).drop_last() =~= s + t.drop_last());
        lemma_others_keep_their_order(s, t.drop_last(), id);
        assert(others(s + t, id) =~= others(s, id) + others(t, id));
    }
}

} // verus!
