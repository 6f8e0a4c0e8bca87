use vstd::prelude::*;
use crate::text::str_eq;

verus! {

/// Values that are stored and found again under a name.
pub trait Keyed {
    spec fn key(&self) -> Seq<char>;

    fn key_str(&self) -> (r: &str)
        ensures
            r@ == self.key(),
    ;
}

/// Position of the entry named `name` in `xs`: the last one with that name.
pub open spec fn find_keyed<T: Keyed>(xs: Seq<T>, name: Seq<char>) -> Option<int>
    decreases xs.len(),
{
    if xs.len() == 0 {
        None
    } else if xs.last().key() == name {
        Some(xs.len() - 1)
    } else {
        find_keyed(xs.drop_last(), name)
    }
}

/// The entry named `name` in `xs`, if any.
pub open spec fn keyed_get<T: Keyed>(xs: Seq<T>, name: Seq<char>) -> Option<T> {
    match find_keyed(xs, name) {
        Some(i) => Some(xs[i]),
        None => None,
    }
}

pub proof fn lemma_find_keyed_range<T: Keyed>(xs: Seq<T>, name: Seq<char>)
    ensures
        find_keyed(xs, name) matches Some(i) ==> 0 <= i < xs.len() && xs[i].key() == name,
        find_keyed(xs, name) is None ==> forall|j: int| 0 <= j < xs.len() ==> xs[j].key() != name,
    decreases xs.len(),
{
    if xs.len() > 0 {
        lemma_find_keyed_range(xs.drop_last(), name);
        if find_keyed(xs, name) is None {
            assert forall|j: int| 0 <= j < xs.len() implies xs[j].key() != name by {
                if j < xs.len() - 1 {
                    assert(xs.drop_last()[j] == xs[j]);
                }
            }
        }
    }
}

/// Appending an entry makes it the one found under its name.
pub proof fn lemma_find_keyed_push<T: Keyed>(xs: Seq<T>, x: T, name: Seq<char>)
    ensures
        name == x.key() ==> find_keyed(xs.push(x), name) == Some(xs.len() as int),
        name != x.key() ==> find_keyed(xs.push(x), name) == find_keyed(xs, name),
{
    assert(xs.push(x).drop_last() =~= xs);
}

/// Sequences with the same names at the same places find the same places.
pub proof fn lemma_find_keyed_same_keys<T: Keyed>(xs: Seq<T>, ys: Seq<T>, name: Seq<char>)
    requires
        xs.len() == ys.len(),
        forall|j: int| 0 <= j < xs.len() ==> (#[trigger] xs[j]).key() == ys[j].key(),
    ensures
        find_keyed(xs, name) == find_keyed(ys, name),
    decreases xs.len(),
{
    if xs.len() > 0 {
        assert(xs.last().key() == ys.last().key());
        assert forall|j: int| 0 <= j < xs.drop_last().len() implies (#[trigger] xs.drop_last()[j]).key()
            == ys.drop_last()[j].key() by {
            assert(xs[j].key() == ys[j].key());
        }
        lemma_find_keyed_same_keys(xs.drop_last(), ys.drop_last(), name);
    }
}

/// Replacing an entry by one of the same name changes no search result.
pub proof fn lemma_find_keyed_update<T: Keyed>(xs: Seq<T>, i: int, x: T, name: Seq<char>)
    requires
        0 <= i < xs.len(),
        xs[i].key() == x.key(),
    ensures
        find_keyed(xs.update(i, x), name) == find_keyed(xs, name),
    decreases xs.len(),
{
    if i < xs.len() - 1 {
        assert(xs.update(i, x).drop_last() =~= xs.drop_last().update(i, x));
        lemma_find_keyed_update(xs.drop_last(), i, x, name);
    } else {
        assert(xs.update(i, x).drop_last() =~= xs.drop_last());
    }
}

/// No two entries of `xs` have the same name.
pub open spec fn keys_unique<T: Keyed>(xs: Seq<T>) -> bool {
    forall|i: int, j: int| 0 <= i < j < xs.len() ==> (#[trigger] xs[i]).key() != (#[trigger] xs[j]).key()
}

/// Index of the entry named `name`, searching from the end.
pub fn find_index<T: Keyed>(xs: &Vec<T>, name: &str) -> (r: Option<usize>)
    ensures
        r matches Some(i) ==> find_keyed(xs@, name@) == Some(i as int),
        r is None ==> find_keyed(xs@, name@) is None,
{
    assert(xs@.take(xs@.len() as int) =~= xs@);
    let mut i = xs.len();
    while i > 0
        invariant
            i <= xs.len(),
            find_keyed(xs@, name@) == find_keyed(xs@.take(i as int), name@),
        decreases i,
    {
        let e = str_eq(xs[i - 1].key_str(), name);
        assert(xs@.take(i as int).drop_last() =~= xs@.take(i - 1));
        if e {
            return Some(i - 1);
        }
        i -= 1;
    }
    None
}

/// The entry named `name`.
pub fn get_keyed<'a, T: Keyed>(xs: &'a Vec<T>, name: &str) -> (r: Option<&'a T>)
    ensures
        r matches Some(x) ==> keyed_get(xs@, name@) == Some(*x),
        r is None ==> keyed_get(xs@, name@) is None,
{
    proof {
        lemma_find_keyed_range(xs@, name@);
    }
    match find_index(xs, name) {
        Some(i) => Some(&xs[i]),
        None => None,
    }
}

/// Stores `x` under its name, replacing and handing back an entry of the
/// same name.
pub fn insert_keyed<T: Keyed>(xs: &mut Vec<T>, x: T) -> (prev: Option<T>)
    ensures
        prev == keyed_get(old(xs)@, x.key()),
        keyed_get(final(xs)@, x.key()) == Some(x),
        forall|k: Seq<char>| k != x.key() ==> #[trigger] keyed_get(final(xs)@, k) == keyed_get(old(xs)@, k),
        final(xs)@.len() == old(xs)@.len() + if prev is None { 1int } else { 0int },
        keys_unique(old(xs)@) ==> keys_unique(final(xs)@),
{
    let ghost old_xs = xs@;
    let ghost nx = x;
    match find_index(xs, x.key_str()) {
        Some(i) => {
            proof {
                lemma_find_keyed_range(old_xs, nx.key());
            }
            let mut x = x;
            std::mem::swap(&mut xs[i], &mut x);
            proof {
                assert forall|k: Seq<char>| k != nx.key() implies
                    #[trigger] keyed_get(xs@, k) == keyed_get(old_xs, k) by {
                    lemma_find_keyed_update(old_xs, i as int, nx, k);
                    lemma_find_keyed_range(old_xs, k);
                }
                lemma_find_keyed_update(old_xs, i as int, nx, nx.key());
                if keys_unique(old_xs) {
                    assert forall|a: int, b: int| 0 <= a < b < xs@.len() implies (#[trigger] xs@[a]).key()
                        != (#[trigger] xs@[b]).key() by {
                        assert(old_xs[a].key() == xs@[a].key());
                        assert(old_xs[b].key() == xs@[b].key());
                    }
                }
            }
            Some(x)
        },
        None => {
            xs.push(x);
            proof {
                assert forall|k: Seq<char>| k != nx.key() implies
                    #[trigger] keyed_get(xs@, k) == keyed_get(old_xs, k) by {
                    lemma_find_keyed_push(old_xs, nx, k);
                    lemma_find_keyed_range(old_xs, k);
                }
                lemma_find_keyed_push(old_xs, nx, nx.key());
                lemma_find_keyed_range(old_xs, nx.key());
                if keys_unique(old_xs) {
                    assert forall|a: int, b: int| 0 <= a < b < xs@.len() implies (#[trigger] xs@[a]).key()
                        != (#[trigger] xs@[b]).key() by {
                        if b < old_xs.len() {
                            assert(old_xs[a] == xs@[a] && old_xs[b] == xs@[b]);
                        } else {
                            assert(xs@[a] == old_xs[a]);
                        }
                    }
                }
            }
            None
        },
    }
}

} // verus!
