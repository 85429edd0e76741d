//! A trie that stores a deduplicated list of values per word, used for
//! name-to-identifier indexing where several records share a name.

use vstd::prelude::*;

use crate::structures::tst::{is_prefix_of, Tst};
use crate::text::norm_of;

verus! {

pub struct MultiTst {
    tst: Tst<Vec<u32>>,
}

/// Whether a list already holds a value.
pub open spec fn list_has(l: Seq<u32>, v: u32) -> bool {
    exists|j: int| 0 <= j < l.len() && #[trigger] l[j] == v
}

/// The lists of a prefix-search result flattened in order.
pub open spec fn flat_of(lists: Seq<Seq<u32>>) -> Seq<u32>
    decreases lists.len(),
{
    if lists.len() == 0 {
        Seq::empty()
    } else {
        lists.first() + flat_of(lists.drop_first())
    }
}

/// The id lists of a prefix-search result, in result order.
pub open spec fn pair_id_views<A>(ps: Seq<(A, Vec<u32>)>) -> Seq<Seq<u32>> {
    Seq::new(ps.len(), |i: int| ps[i].1@)
}

/// Appending one more list extends the flattened sequence at its end.
proof fn lemma_flat_snoc(lists: Seq<Seq<u32>>, l: Seq<u32>)
    ensures
        flat_of(lists.push(l)) == flat_of(lists) + l,
    decreases lists.len(),
{
    if lists.len() == 0 {
        assert(lists.push(l).first() == l);
        assert(lists.push(l).drop_first() =~= Seq::<Seq<u32>>::empty());
        assert(flat_of(lists.push(l).drop_first()) =~= Seq::<u32>::empty());
        assert(flat_of(lists.push(l)) == l + flat_of(lists.push(l).drop_first()));
        assert(flat_of(lists) =~= Seq::<u32>::empty());
        assert(flat_of(lists.push(l)) =~= flat_of(lists) + l);
    } else {
        assert(lists.push(l).first() == lists.first());
        assert(lists.push(l).drop_first() =~= lists.drop_first().push(l));
        lemma_flat_snoc(lists.drop_first(), l);
        assert(flat_of(lists.push(l)) =~= flat_of(lists) + l);
    }
}

impl MultiTst {
    /// The structural invariant of the underlying trie.
    pub closed spec fn wf(self) -> bool {
        self.tst.wf()
    }

    /// Whether some list is stored under the (normalised) word.
    pub closed spec fn has_list(self, w: Seq<char>) -> bool {
        self.tst.spec_get(w) is Some
    }

    /// The list stored under the (normalised) word.
    pub closed spec fn list_at(self, w: Seq<char>) -> Seq<u32> {
        self.tst.spec_get(w).unwrap()@
    }

    /// The exact sequence a prefix search flattens to: the id lists of
    /// every matching stored word, in traversal order, each list in its
    /// insertion order.
    pub closed spec fn spec_found_ids(self, p: Seq<char>) -> Seq<u32> {
        flat_of(pair_id_views(self.tst.spec_find(p)))
    }

    pub fn new() -> (t: Self)
        ensures
            t.wf(),
            forall|w: Seq<char>| !(#[trigger] t.has_list(w)),
    {
        MultiTst { tst: Tst::new() }
    }

    /// Appends the value to the word's list unless an equal value is
    /// already there; a fresh word starts with a one-value list. The
    /// empty normalised word is ignored.
    pub fn insert(&mut self, key: String, value: u32) -> (r: Result<(), crate::DbError>)
        requires
            old(self).wf(),
        ensures
            r is Ok,
            final(self).wf(),
            forall|w: Seq<char>|
                w != norm_of(key@) ==> #[trigger] final(self).has_list(w) == old(self).has_list(w)
                    && (old(self).has_list(w) ==> final(self).list_at(w) == old(self).list_at(w)),
            norm_of(key@).len() > 0 ==> {
                let w = norm_of(key@);
                let oldl = if old(self).has_list(w) {
                    old(self).list_at(w)
                } else {
                    Seq::<u32>::empty()
                };
                &&& final(self).has_list(w)
                &&& final(self).list_at(w) == (if list_has(oldl, value) {
                    oldl
                } else {
                    oldl.push(value)
                })
            },
            norm_of(key@).len() == 0 ==> final(self).has_list(norm_of(key@)) == old(
                self,
            ).has_list(norm_of(key@)) && (old(self).has_list(norm_of(key@)) ==> final(self).list_at(
                norm_of(key@),
            ) == old(self).list_at(norm_of(key@))),
    {
        let ghost w = norm_of(key@);
        let ghost old_self = *self;
        let mut list: Vec<u32>;
        let ghost oldl: Seq<u32>;
        match self.tst.get(key.clone()) {
            Some(l) => {
                proof {
                    oldl = old_self.tst.spec_get(w).unwrap()@;
                }
                proof {
                    assert(l@ =~= oldl);
                }
                list = l;
            },
            None => {
                proof {
                    oldl = Seq::<u32>::empty();
                }
                list = Vec::new();
            },
        }
        let mut found = false;
        let mut i: usize = 0;
        while i < list.len()
            invariant_except_break
                found == false,
            invariant
                i <= list@.len(),
                list@ == oldl,
                forall|j: int| 0 <= j < i ==> #[trigger] list@[j] != value || found,
            ensures
                found == list_has(oldl, value),
            decreases list.len() - i,
        {
            if list[i] == value {
                found = true;
                proof {
                    assert(list@[i as int] == value);
                }
                break ;
            }
            i = i + 1;
        }
        if !found {
            list.push(value);
        }
        self.tst.insert(&key, list)
    }

    /// A copy of the list stored under the normalised word.
    pub fn get(&self, key: String) -> (r: Option<Vec<u32>>)
        ensures
            match r {
                Some(l) => self.has_list(norm_of(key@)) && l@ == self.list_at(norm_of(key@)),
                None => !self.has_list(norm_of(key@)),
            },
    {
        let r = self.tst.get(key);
        proof {
            if r is Some {
                assert(r->0@ =~= self.list_at(norm_of(key@)));
            }
        }
        r
    }

    /// The underlying trie rendered sideways, for inspection.
    pub fn debug(&self) -> String {
        self.tst.print_vertical()
    }

    /// Every value listed under any stored word that the normalised
    /// prefix begins, flattened into one list: each returned value comes
    /// from such a list, and every value of every matching list is
    /// returned.
    #[verifier::rlimit(100)]
    #[verifier::spinoff_prover]
    pub fn find(&self, prefix: String) -> (r: Vec<u32>)
        requires
            self.wf(),
        ensures
            r@ == self.spec_found_ids(norm_of(prefix@)),
            forall|i: int|
                0 <= i < r@.len() ==> from_matching_list(*self, norm_of(prefix@), #[trigger] r@[i]),
            forall|w: Seq<char>, j: int|
                #![trigger self.list_at(w)[j]]
                self.has_list(w) && is_prefix_of(norm_of(prefix@), w) && 0 <= j
                    < self.list_at(w).len() ==> r@.contains(self.list_at(w)[j]),
    {
        let ghost p = norm_of(prefix@);
        proof {
            self.tst.lemma_find_exact(p);
        }
        let pairs = self.tst.find_from_prefix(prefix);
        let ghost spec_pairs = self.tst.spec_find(p);
        proof {
            assert forall|k: int, j: int|
                #![trigger pairs@[k].1@[j]]
                0 <= k < pairs@.len() && 0 <= j < pairs@[k].1@.len() implies pairs@[k].1@[j]
                == self.list_at(pairs@[k].0@)[j] && self.has_list(pairs@[k].0@) && is_prefix_of(
                p,
                pairs@[k].0@,
            ) && j < self.list_at(pairs@[k].0@).len() by {
                assert(cloned::<Vec<u32>>(spec_pairs[k].1, pairs@[k].1));
                assert(pairs@[k].1@.len() == spec_pairs[k].1@.len());
                assert(cloned::<u32>(spec_pairs[k].1@[j], pairs@[k].1@[j]));
            }
            assert forall|w: Seq<char>, j: int|
                #![trigger self.list_at(w)[j]]
                self.has_list(w) && is_prefix_of(p, w) && 0 <= j < self.list_at(w).len() implies
                exists|k2: int|
                    0 <= k2 < pairs@.len() && (#[trigger] pairs@[k2]).0@ == w && pairs@[k2].1@.len()
                        == self.list_at(w).len() by {
                let k0 = choose|k0: int|
                    0 <= k0 < spec_pairs.len() && #[trigger] spec_pairs[k0] == (
                    w,
                    self.tst.spec_get(w).unwrap(),
                    );
                assert(pairs@[k0].0@ == w);
                assert(cloned::<Vec<u32>>(spec_pairs[k0].1, pairs@[k0].1));
                assert(pairs@[k0].1@.len() == self.list_at(w).len());
            }
        }
        let r = flatten_id_lists(pairs);
        proof {
            assert(pair_id_views(pairs@) =~= pair_id_views(spec_pairs)) by {
                assert forall|k: int|
                    0 <= k < pairs@.len() implies pair_id_views(pairs@)[k] == pair_id_views(
                    spec_pairs,
                )[k] by {
                    assert(cloned::<Vec<u32>>(spec_pairs[k].1, pairs@[k].1));
                    assert(pairs@[k].1@ =~= spec_pairs[k].1@);
                }
            }
            assert(self.spec_found_ids(p) == flat_of(pair_id_views(self.tst.spec_find(p))));
            assert(pair_id_views(pairs@) == pair_id_views(spec_pairs));
            assert(flat_of(pair_id_views(pairs@)) == flat_of(pair_id_views(spec_pairs)));
            assert(r@ == self.spec_found_ids(p));
            assert forall|w: Seq<char>, j: int|
                #![trigger self.list_at(w)[j]]
                self.has_list(w) && is_prefix_of(p, w) && 0 <= j < self.list_at(w).len() implies r@.contains(
                self.list_at(w)[j],
            ) by {
                let k2 = choose|k2: int|
                    0 <= k2 < pairs@.len() && (#[trigger] pairs@[k2]).0@ == w && pairs@[k2].1@.len()
                        == self.list_at(w).len();
                assert(pairs@[k2].1@[j] == self.list_at(w)[j]);
                assert(r@.contains(pairs@[k2].1@[j]));
            }
            assert forall|i: int|
                0 <= i < r@.len() implies from_matching_list(
                *self,
                norm_of(prefix@),
                #[trigger] r@[i],
            ) by {
                assert(in_lists(pairs@, r@[i]));
                let (k2, j2): (int, int) = choose|k2: int, j2: int|
                    0 <= k2 < pairs@.len() && 0 <= j2 < pairs@[k2].1@.len() && #[trigger] pairs@[k2].1@[j2]
                        == r@[i];
                let w = pairs@[k2].0@;
                assert(self.has_list(w) && is_prefix_of(p, w) && 0 <= j2 < self.list_at(w).len()
                    && self.list_at(w)[j2] == r@[i]);
            }
        }
        r
    }
}

/// Whether the value sits in some stored list whose word the prefix
/// begins.
pub open spec fn from_matching_list(m: MultiTst, p: Seq<char>, x: u32) -> bool {
    exists|w: Seq<char>, j: int|
        is_prefix_of(p, w) && m.has_list(w) && 0 <= j < m.list_at(w).len()
            && #[trigger] m.list_at(w)[j] == x
}

/// Whether some list in a prefix-search result holds the value.
pub open spec fn in_lists(pairs: Seq<(String, Vec<u32>)>, x: u32) -> bool {
    exists|k: int, j: int|
        0 <= k < pairs.len() && 0 <= j < pairs[k].1@.len() && #[trigger] pairs[k].1@[j] == x
}

/// Concatenates the value lists of a prefix-search result, keeping every
/// element of every list.
fn flatten_id_lists(pairs: Vec<(String, Vec<u32>)>) -> (r: Vec<u32>)
    ensures
        r@ == flat_of(pair_id_views(pairs@)),
        forall|i: int| 0 <= i < r@.len() ==> in_lists(pairs@, #[trigger] r@[i]),
        forall|k: int, j: int|
            #![trigger pairs@[k].1@[j]]
            0 <= k < pairs@.len() && 0 <= j < pairs@[k].1@.len() ==> r@.contains(pairs@[k].1@[j]),
{
    let mut r: Vec<u32> = Vec::new();
    let mut k: usize = 0;
    proof {
        assert(pair_id_views(pairs@).take(0) =~= Seq::<Seq<u32>>::empty());
        assert(r@ =~= flat_of(pair_id_views(pairs@).take(0)));
    }
    while k < pairs.len()
        invariant
            k <= pairs@.len(),
            r@ == flat_of(pair_id_views(pairs@).take(k as int)),
            forall|i: int| 0 <= i < r@.len() ==> in_lists(pairs@, #[trigger] r@[i]),
            forall|k2: int, j2: int|
                #![trigger pairs@[k2].1@[j2]]
                0 <= k2 < k && 0 <= j2 < pairs@[k2].1@.len() ==> r@.contains(pairs@[k2].1@[j2]),
        decreases pairs.len() - k,
    {
        let list = &pairs[k].1;
        let mut j: usize = 0;
        proof {
            let base = flat_of(pair_id_views(pairs@).take(k as int));
            assert(pairs@[k as int].1@.take(0) =~= Seq::<u32>::empty());
            assert(base + Seq::<u32>::empty() =~= base);
            assert(r@ == base);
            assert(r@ =~= base + pairs@[k as int].1@.take(0));
        }
        while j < list.len()
            invariant
                0 <= k < pairs@.len(),
                j <= list@.len(),
                list@ == pairs@[k as int].1@,
                r@ == flat_of(pair_id_views(pairs@).take(k as int)) + list@.take(j as int),
                forall|i: int| 0 <= i < r@.len() ==> in_lists(pairs@, #[trigger] r@[i]),
                forall|k2: int, j2: int|
                    #![trigger pairs@[k2].1@[j2]]
                    0 <= k2 < k && 0 <= j2 < pairs@[k2].1@.len() ==> r@.contains(
                        pairs@[k2].1@[j2],
                    ),
                forall|j2: int|
                    #![trigger pairs@[k as int].1@[j2]]
                    0 <= j2 < j ==> r@.contains(pairs@[k as int].1@[j2]),
            decreases list.len() - j,
        {
            let ghost old_r = r@;
            r.push(list[j]);
            proof {
                assert(r@ =~= flat_of(pair_id_views(pairs@).take(k as int)) + list@.take(j + 1));
                assert(r@.drop_last() =~= old_r);
                assert(r@[old_r.len() as int] == pairs@[k as int].1@[j as int]);
                assert(in_lists(pairs@, r@[old_r.len() as int]));
                assert forall|x: u32| old_r.contains(x) implies r@.contains(x) by {
                    let i0 = choose|i0: int| 0 <= i0 < old_r.len() && old_r[i0] == x;
                    assert(r@[i0] == x);
                }
                assert(r@.contains(pairs@[k as int].1@[j as int])) by {
                    assert(r@[old_r.len() as int] == pairs@[k as int].1@[j as int]);
                }
            }
            j = j + 1;
        }
        proof {
            assert(list@.take(list@.len() as int) =~= list@);
            assert(pair_id_views(pairs@).take(k + 1) =~= pair_id_views(pairs@).take(
                k as int,
            ).push(list@));
            lemma_flat_snoc(pair_id_views(pairs@).take(k as int), list@);
        }
        k = k + 1;
    }
    proof {
        assert(pair_id_views(pairs@).take(pairs@.len() as int) =~= pair_id_views(pairs@));
        assert(flat_of(pair_id_views(pairs@).take(pairs@.len() as int)) == flat_of(
            pair_id_views(pairs@),
        ));
        assert(r@ == flat_of(pair_id_views(pairs@)));
    }
    r
}

} // verus!
