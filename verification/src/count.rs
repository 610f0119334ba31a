use vstd::prelude::*;

verus! {

/// How many entries of a sequence of flags are set.
pub open spec fn count_true(s: Seq<bool>) -> nat
    decreases s.len(),
{
    if s.len() == 0 {
        0
    } else {
        count_true(s.drop_last()) + if s.last() { 1nat } else { 0nat }
    }
}

/// Changing one flag changes the count by that flag alone.
pub proof fn lemma_count_update(s: Seq<bool>, i: int, v: bool)
    requires
        0 <= i < s.len(),
    ensures
        count_true(s.update(i, v)) + (if s[i] { 1nat } else { 0nat }) == count_true(s) + (if v {
            1nat
        } else {
            0nat
        }),
    decreases s.len(),
{
    if i == s.len() - 1 {
        assert(s.update(i, v).drop_last() =~= s.drop_last());
    } else {
        assert(s.update(i, v).drop_last() =~= s.drop_last().update(i, v));
        lemma_count_update(s.drop_last(), i, v);
    }
}

/// No more flags are set than there are.
pub proof fn lemma_count_bound(s: Seq<bool>)
    ensures
        count_true(s) <= s.len(),
    decreases s.len(),
{
    if s.len() > 0 {
        lemma_count_bound(s.drop_last());
    }
}

/// Where no flag is set the count is zero.
pub proof fn lemma_count_none(s: Seq<bool>)
    requires
        forall|i: int| 0 <= i < s.len() ==> !s[i],
    ensures
        count_true(s) == 0,
    decreases s.len(),
{
    if s.len() > 0 {
        lemma_count_none(s.drop_last());
    }
}

/// Where every flag is set the count is the length.
pub proof fn lemma_count_every(s: Seq<bool>)
    requires
        forall|i: int| 0 <= i < s.len() ==> s[i],
    ensures
        count_true(s) == s.len(),
    decreases s.len(),
{
    if s.len() > 0 {
        lemma_count_every(s.drop_last());
    }
}

/// Where the count is the length every flag is set.
pub proof fn lemma_count_full(s: Seq<bool>)
    requires
        count_true(s) == s.len(),
    ensures
        forall|i: int| 0 <= i < s.len() ==> s[i],
    decreases s.len(),
{
    if s.len() > 0 {
        lemma_count_bound(s.drop_last());
        lemma_count_full(s.drop_last());
        assert forall|i: int| 0 <= i < s.len() implies s[i] by {
            if i < s.len() - 1 {
                assert(s.drop_last()[i] == s[i]);
            }
        }
    }
}

/// For each place of `path`, the flag of the item that stands there.
pub open spec fn picked(flags: Seq<bool>, path: Seq<usize>) -> Seq<bool> {
    Seq::new(path.len(), |k: int| flags[path[k] as int])
}

/// One more item on the path adds its flag to the count.
pub proof fn lemma_picked_push(flags: Seq<bool>, path: Seq<usize>, e: usize)
    ensures
        count_true(picked(flags, path.push(e))) == count_true(picked(flags, path)) + (if flags[e as int] {
            1nat
        } else {
            0nat
        }),
{
    assert(picked(flags, path.push(e)).drop_last() =~= picked(flags, path));
}

/// Items without a flag, added to the path, leave the count as it was.
pub proof fn lemma_picked_none(flags: Seq<bool>, path: Seq<usize>, more: Seq<usize>)
    requires
        forall|k: int| 0 <= k < more.len() ==> !flags[(#[trigger] more[k]) as int],
    ensures
        count_true(picked(flags, path + more)) == count_true(picked(flags, path)),
    decreases more.len(),
{
    if more.len() == 0 {
        assert(path + more =~= path);
    } else {
        let front = more.drop_last();
        assert forall|k: int| 0 <= k < front.len() implies !flags[(#[trigger] front[k]) as int] by {
            assert(front[k] == more[k]);
        }
        lemma_picked_none(flags, path, front);
        assert(path + more =~= (path + front).push(more.last()));
        lemma_picked_push(flags, path + front, more.last());
        assert(more[more.len() - 1] == more.last());
    }
}

/// A path that holds no item twice picks no more flags than are set.
pub proof fn lemma_picked_fit(flags: Seq<bool>, path: Seq<usize>)
    requires
        path.no_duplicates(),
        forall|k: int| 0 <= k < path.len() ==> (#[trigger] path[k]) < flags.len(),
    ensures
        count_true(picked(flags, path)) <= count_true(flags),
    decreases path.len(),
{
    if path.len() > 0 {
        let last = path.last();
        let front = path.drop_last();
        let fewer = flags.update(last as int, false);
        assert(front.no_duplicates());
        assert forall|k: int| 0 <= k < front.len() implies (#[trigger] front[k]) < fewer.len() by {
            assert(front[k] == path[k]);
        }
        lemma_picked_fit(fewer, front);
        assert(picked(fewer, front) =~= picked(flags, front)) by {
            assert forall|k: int| 0 <= k < front.len() implies fewer[front[k] as int]
                == flags[front[k] as int] by {
                assert(path[k] != path[path.len() - 1]);
            }
        }
        assert(path =~= front.push(last));
        lemma_picked_push(flags, front, last);
        lemma_count_update(flags, last as int, false);
    }
}

/// A path of items that all bear the flag picks as many flags as it is long.
pub proof fn lemma_picked_every(flags: Seq<bool>, path: Seq<usize>)
    requires
        forall|k: int| 0 <= k < path.len() ==> flags[(#[trigger] path[k]) as int],
    ensures
        count_true(picked(flags, path)) == path.len(),
{
    lemma_count_every(picked(flags, path));
}

/// Of two lists of flags that are never both set, as many are set in either as
/// in the two together.
pub proof fn lemma_count_either(a: Seq<bool>, b: Seq<bool>)
    requires
        a.len() == b.len(),
        forall|i: int| 0 <= i < a.len() ==> !(a[i] && b[i]),
    ensures
        count_true(Seq::new(a.len(), |i: int| a[i] || b[i])) == count_true(a) + count_true(b),
    decreases a.len(),
{
    let both = Seq::new(a.len(), |i: int| a[i] || b[i]);
    if a.len() > 0 {
        lemma_count_either(a.drop_last(), b.drop_last());
        assert(both.drop_last() =~= Seq::new(
            a.drop_last().len(),
            |i: int| a.drop_last()[i] || b.drop_last()[i],
        ));
    }
}

/// Where the flags are set at exactly the places of a list that holds no place
/// twice, as many flags are set as the list is long.
pub proof fn lemma_count_places(flags: Seq<bool>, places: Seq<int>)
    requires
        places.no_duplicates(),
        forall|i: int| 0 <= i < places.len() ==> 0 <= #[trigger] places[i] < flags.len(),
        forall|k: int| 0 <= k < flags.len() ==> flags[k] == places.contains(k),
    ensures
        count_true(flags) == places.len(),
    decreases places.len(),
{
    if places.len() == 0 {
        lemma_count_none(flags);
    } else {
        let p = places.last();
        let rest = places.drop_last();
        let fewer = flags.update(p, false);
        assert(places[places.len() - 1] == p);
        assert(places.contains(p));
        assert forall|k: int| 0 <= k < fewer.len() implies fewer[k] == rest.contains(k) by {
            if rest.contains(k) {
                let i = choose|i: int| 0 <= i < rest.len() && rest[i] == k;
                assert(places[i] == k);
                assert(k != p);
            }
            if k != p && places.contains(k) {
                let i = choose|i: int| 0 <= i < places.len() && places[i] == k;
                assert(rest[i] == k);
            }
        }
        assert forall|i: int| 0 <= i < rest.len() implies 0 <= #[trigger] rest[i] < fewer.len() by {
            assert(rest[i] == places[i]);
        }
        lemma_count_places(fewer, rest);
        lemma_count_update(flags, p, false);
    }
}

} // verus!
