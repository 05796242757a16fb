//! A longest-match index over inclusive ranges of 128-bit keys, backed by an
//! interval tree. Each range is known by its position in the sequence it was
//! built from.

use intervaltree::IntervalTree;
use vstd::multiset::Multiset;
use vstd::prelude::*;

verus! {

#[verifier::external_type_specification]
#[verifier::external_body]
#[verifier::reject_recursive_types(K)]
#[verifier::reject_recursive_types(V)]
pub struct ExIntervalTree<K, V>(IntervalTree<K, V>);

/// The elements that an interval tree holds, each as `(start, end, value)` of
/// the half-open range `start..end`.
pub uninterp spec fn tree_elements(t: IntervalTree<u128, usize>) -> Multiset<(u128, u128, usize)>;

/// Relies on `FromIterator` for `intervaltree::IntervalTree`: the tree keeps
/// every element it is built from, and no other.
#[verifier::external_body]
fn tree_from_elements(items: Vec<(u128, u128, usize)>) -> (t: IntervalTree<u128, usize>)
    ensures
        tree_elements(t) == items@.to_multiset(),
{
    items.into_iter().map(|(start, end, value)| (start..end, value)).collect()
}

/// Relies on `intervaltree::IntervalTree::query`: it yields each element whose
/// range overlaps `start..end` (element start below `end`, element end above
/// `start`), and no other.
#[verifier::external_body]
fn tree_query(t: &IntervalTree<u128, usize>, start: u128, end: u128) -> (r: Vec<(u128, u128, usize)>)
    ensures
        forall|i: int|
            0 <= i < r.len() ==> tree_elements(*t).contains(#[trigger] r@[i]) && r@[i].0 < end
                && start < r@[i].1,
        forall|e: (u128, u128, usize)|
            tree_elements(*t).contains(e) && e.0 < end && start < e.1 ==> r@.contains(e),
{
    t.query(start..end).map(|e| (e.range.start, e.range.end, e.value)).collect()
}

/// The range `r` (inclusive bounds) holds every key of the non-empty inclusive
/// range `lo..=hi`.
pub open spec fn covers(r: (u128, u128), lo: int, hi: int) -> bool {
    r.0 <= lo && lo <= hi && hi <= r.1
}

/// The width of an inclusive range: one less than the number of keys in it.
pub open spec fn width(r: (u128, u128)) -> int {
    r.1 - r.0
}

/// Range `i` of `rs` ranks before range `j`: it is narrower, or as wide and
/// earlier.
pub open spec fn ranks_before(rs: Seq<(u128, u128)>, i: int, j: int) -> bool {
    width(rs[i]) < width(rs[j]) || (width(rs[i]) == width(rs[j]) && i <= j)
}

/// Among the first `n` ranges of `rs`, the position of the narrowest one that
/// covers `lo..=hi`, the earliest among equally narrow ones.
pub open spec fn best_among(rs: Seq<(u128, u128)>, lo: int, hi: int, n: int) -> Option<int>
    decreases n,
{
    if n <= 0 {
        None
    } else {
        let prev = best_among(rs, lo, hi, n - 1);
        if covers(rs[n - 1], lo, hi) {
            match prev {
                Some(j) => if width(rs[n - 1]) < width(rs[j]) {
                    Some(n - 1)
                } else {
                    Some(j)
                },
                None => Some(n - 1),
            }
        } else {
            prev
        }
    }
}

/// The position of the narrowest range of `rs` that covers `lo..=hi`, the
/// earliest among equally narrow ones.
pub open spec fn best(rs: Seq<(u128, u128)>, lo: int, hi: int) -> Option<int> {
    best_among(rs, lo, hi, rs.len() as int)
}

/// Position `i` covers `lo..=hi` and ranks before every other position below
/// `n` that does.
pub open spec fn is_best_among(rs: Seq<(u128, u128)>, lo: int, hi: int, n: int, i: int) -> bool {
    &&& 0 <= i < n
    &&& covers(rs[i], lo, hi)
    &&& forall|j: int| 0 <= j < n && covers(#[trigger] rs[j], lo, hi) ==> ranks_before(rs, i, j)
}

/// `best_among` picks the position that ranks before all other covering ones,
/// and finds none exactly when no position covers the query.
pub proof fn lemma_best_among(rs: Seq<(u128, u128)>, lo: int, hi: int, n: int)
    requires
        0 <= n <= rs.len(),
    ensures
        match best_among(rs, lo, hi, n) {
            Some(i) => is_best_among(rs, lo, hi, n, i),
            None => forall|j: int| 0 <= j < n ==> !covers(#[trigger] rs[j], lo, hi),
        },
    decreases n,
{
    if n > 0 {
        lemma_best_among(rs, lo, hi, n - 1);
    }
}

/// At most one position ranks before all other covering ones.
pub proof fn lemma_best_unique(rs: Seq<(u128, u128)>, lo: int, hi: int, n: int, i: int, k: int)
    requires
        is_best_among(rs, lo, hi, n, i),
        is_best_among(rs, lo, hi, n, k),
    ensures
        i == k,
{
    assert(ranks_before(rs, i, k));
    assert(ranks_before(rs, k, i));
}

/// `best` picks the position that ranks before all other covering ones, and
/// finds none exactly when no position covers the query.
pub proof fn lemma_best_is_best(rs: Seq<(u128, u128)>, lo: int, hi: int)
    ensures
        match best(rs, lo, hi) {
            Some(i) => is_best_among(rs, lo, hi, rs.len() as int, i),
            None => forall|j: int| 0 <= j < rs.len() ==> !covers(#[trigger] rs[j], lo, hi),
        },
{
    lemma_best_among(rs, lo, hi, rs.len() as int);
}

/// Each range of `rs` holds every later one and is strictly wider than it.
pub open spec fn is_strict_chain(rs: Seq<(u128, u128)>) -> bool {
    forall|i: int, j: int|
        0 <= i < j < rs.len() ==> covers(#[trigger] rs[i], rs[j].0 as int, rs[j].1 as int) && width(
            #[trigger] rs[j],
        ) < width(rs[i])
}

/// Over a strict chain, a query that range `i` covers and range `i + 1`
/// (if any) does not is answered by `i`.
pub proof fn lemma_chain_best(rs: Seq<(u128, u128)>, lo: int, hi: int, i: int)
    requires
        is_strict_chain(rs),
        0 <= i < rs.len(),
        covers(rs[i], lo, hi),
        i + 1 == rs.len() || !covers(rs[i + 1], lo, hi),
    ensures
        best(rs, lo, hi) == Some(i),
{
    let n = rs.len() as int;
    assert forall|j: int| 0 <= j < n && covers(#[trigger] rs[j], lo, hi) implies ranks_before(
        rs,
        i,
        j,
    ) by {
        if j > i + 1 {
            assert(covers(rs[i + 1], rs[j].0 as int, rs[j].1 as int));
        }
        if j < i {
            assert(width(rs[i]) < width(rs[j]));
        }
    }
    assert(is_best_among(rs, lo, hi, n, i));
    lemma_best_is_best(rs, lo, hi);
    if let Some(k) = best(rs, lo, hi) {
        lemma_best_unique(rs, lo, hi, n, k, i);
    }
}

/// An index answering, for a query range, which stored range covers it most
/// tightly.
pub struct RangeIndex {
    tree: IntervalTree<u128, usize>,
    /// The ranges that end at the largest key, which `tree` cannot express as
    /// half-open ranges: each as its start and its position.
    open_ended: Vec<(u128, usize)>,
    ranges: Ghost<Seq<(u128, u128)>>,
}

impl RangeIndex {
    /// The stored ranges, with inclusive bounds, in the order given.
    pub closed spec fn view(&self) -> Seq<(u128, u128)> {
        self.ranges@
    }

    #[verifier::type_invariant]
    spec fn inv(&self) -> bool {
        let rs = self.ranges@;
        &&& rs.len() <= usize::MAX
        &&& forall|e: (u128, u128, usize)| #[trigger]
            tree_elements(self.tree).contains(e) ==> {
                &&& (e.2 as int) < rs.len()
                &&& rs[e.2 as int].0 == e.0
                &&& rs[e.2 as int].1 + 1 == e.1
            }
        &&& forall|i: int|
            0 <= i < rs.len() && #[trigger] rs[i].0 <= rs[i].1 && rs[i].1 < u128::MAX ==> tree_elements(
                self.tree,
            ).contains((rs[i].0, (rs[i].1 + 1) as u128, i as usize))
        &&& forall|k: int|
            0 <= k < self.open_ended@.len() ==> {
                &&& (#[trigger] self.open_ended@[k].1 as int) < rs.len()
                &&& rs[self.open_ended@[k].1 as int] == (self.open_ended@[k].0, u128::MAX)
            }
        &&& forall|i: int|
            0 <= i < rs.len() && #[trigger] rs[i].1 == u128::MAX ==> self.open_ended@.contains(
                (rs[i].0, i as usize),
            )
    }

    /// Builds the index over `ranges`, each given with inclusive bounds.
    pub fn new(ranges: &Vec<(u128, u128)>) -> (r: Self)
        ensures
            r@ == ranges@,
    {
        let mut elements: Vec<(u128, u128, usize)> = Vec::new();
        let mut open_ended: Vec<(u128, usize)> = Vec::new();
        let mut i: usize = 0;
        while i < ranges.len()
            invariant
                i <= ranges.len(),
                forall|e: (u128, u128, usize)| #[trigger]
                    elements@.contains(e) ==> {
                        &&& (e.2 as int) < i
                        &&& ranges@[e.2 as int].0 == e.0
                        &&& ranges@[e.2 as int].1 + 1 == e.1
                    },
                forall|j: int|
                    0 <= j < i && #[trigger] ranges@[j].0 <= ranges@[j].1 && ranges@[j].1
                        < u128::MAX ==> elements@.contains(
                        (ranges@[j].0, (ranges@[j].1 + 1) as u128, j as usize),
                    ),
                forall|k: int|
                    0 <= k < open_ended@.len() ==> {
                        &&& (#[trigger] open_ended@[k].1 as int) < i
                        &&& ranges@[open_ended@[k].1 as int] == (open_ended@[k].0, u128::MAX)
                    },
                forall|j: int|
                    0 <= j < i && #[trigger] ranges@[j].1 == u128::MAX ==> open_ended@.contains(
                        (ranges@[j].0, j as usize),
                    ),
            decreases ranges.len() - i,
        {
            let (lo, hi) = ranges[i];
            let ghost old_elements = elements@;
            let ghost old_open = open_ended@;
            if hi == u128::MAX {
                open_ended.push((lo, i));
                proof {
                    assert(open_ended@[open_ended@.len() - 1] == (lo, i));
                }
            } else if lo <= hi {
                elements.push((lo, hi + 1, i));
                proof {
                    assert(elements@[elements@.len() - 1] == (lo, (hi + 1) as u128, i));
                }
            }
            proof {
                assert forall|e: (u128, u128, usize)| #[trigger] elements@.contains(e) implies e
                    == (lo, (hi + 1) as u128, i) || old_elements.contains(e) by {
                    let k = choose|k: int| 0 <= k < elements@.len() && elements@[k] == e;
                    if k < old_elements.len() {
                        assert(old_elements[k] == e);
                    }
                }
                assert forall|e: (u128, u128, usize)| #[trigger] old_elements.contains(e) implies elements@.contains(e) by {
                    let k = choose|k: int| 0 <= k < old_elements.len() && old_elements[k] == e;
                    assert(elements@[k] == e);
                }
                assert forall|e: (u128, usize)| #[trigger] old_open.contains(e) implies open_ended@.contains(e) by {
                    let k = choose|k: int| 0 <= k < old_open.len() && old_open[k] == e;
                    assert(open_ended@[k] == e);
                }
            }
            i += 1;
        }
        let ghost rs = ranges@;
        proof {
            broadcast use vstd::seq_lib::group_to_multiset_ensures;

        }
        let tree = tree_from_elements(elements);
        RangeIndex { tree, open_ended, ranges: Ghost(rs) }
    }

    /// The position of the narrowest stored range that covers `lo..=hi`, the
    /// earliest among equally narrow ones; none when no stored range covers it.
    pub fn longest_match(&self, lo: u128, hi: u128) -> (r: Option<usize>)
        ensures
            match r {
                Some(i) => best(self@, lo as int, hi as int) == Some(i as int),
                None => best(self@, lo as int, hi as int) is None,
            },
    {
        proof {
            use_type_invariant(self);
        }
        let ghost rs = self.ranges@;
        let mut found: Option<usize> = None;
        let mut found_width: u128 = 0;
        if lo <= hi && hi < u128::MAX {
            let hits = tree_query(&self.tree, lo, hi + 1);
            let mut k: usize = 0;
            while k < hits.len()
                invariant
                    k <= hits.len(),
                    lo <= hi,
                    rs == self.ranges@,
                    forall|e: (u128, u128, usize)| #[trigger]
                        tree_elements(self.tree).contains(e) ==> {
                            &&& (e.2 as int) < rs.len()
                            &&& rs[e.2 as int].0 == e.0
                            &&& rs[e.2 as int].1 + 1 == e.1
                        },
                    forall|i: int|
                        0 <= i < hits.len() ==> tree_elements(self.tree).contains(
                            #[trigger] hits@[i],
                        ),
                    found matches Some(b) ==> {
                        &&& (b as int) < rs.len()
                        &&& covers(rs[b as int], lo as int, hi as int)
                        &&& found_width == width(rs[b as int])
                        &&& forall|m: int|
                            0 <= m < k && covers(rs[#[trigger] hits@[m].2 as int], lo as int, hi as int)
                                ==> ranks_before(rs, b as int, hits@[m].2 as int)
                    },
                    found is None ==> forall|m: int|
                        0 <= m < k ==> !covers(rs[#[trigger] hits@[m].2 as int], lo as int, hi as int),
                decreases hits.len() - k,
            {
                let (s, e, idx) = hits[k];
                proof {
                    assert(tree_elements(self.tree).contains(hits@[k as int]));
                }
                if s <= lo && hi < e {
                    let w = (e - 1) - s;
                    let better = match found {
                        Some(b) => w < found_width || (w == found_width && idx < b),
                        None => true,
                    };
                    if better {
                        found = Some(idx);
                        found_width = w;
                    }
                }
                k += 1;
            }
        }
        proof {
            assert forall|j: int|
                0 <= j < rs.len() && covers(#[trigger] rs[j], lo as int, hi as int) && rs[j].1
                    < u128::MAX implies (found matches Some(b) && ranks_before(rs, b as int, j)) by {
                let e = (rs[j].0, (rs[j].1 + 1) as u128, j as usize);
                assert(tree_elements(self.tree).contains(e));
            }
        }
        let mut k: usize = 0;
        while k < self.open_ended.len()
            invariant
                k <= self.open_ended.len(),
                rs == self.ranges@,
                forall|q: int|
                    0 <= q < self.open_ended@.len() ==> {
                        &&& (#[trigger] self.open_ended@[q].1 as int) < rs.len()
                        &&& rs[self.open_ended@[q].1 as int] == (self.open_ended@[q].0, u128::MAX)
                    },
                forall|j: int|
                    0 <= j < rs.len() && covers(#[trigger] rs[j], lo as int, hi as int) && rs[j].1
                        < u128::MAX ==> (found matches Some(b) && ranks_before(rs, b as int, j)),
                found matches Some(b) ==> {
                    &&& (b as int) < rs.len()
                    &&& covers(rs[b as int], lo as int, hi as int)
                    &&& found_width == width(rs[b as int])
                    &&& forall|m: int|
                        0 <= m < k && covers(rs[#[trigger] self.open_ended@[m].1 as int], lo as int, hi as int)
                            ==> ranks_before(rs, b as int, self.open_ended@[m].1 as int)
                },
                found is None ==> forall|m: int|
                    0 <= m < k ==> !covers(rs[#[trigger] self.open_ended@[m].1 as int], lo as int, hi as int),
            decreases self.open_ended.len() - k,
        {
            let (s, idx) = self.open_ended[k];
            if s <= lo && lo <= hi {
                let w = u128::MAX - s;
                let better = match found {
                    Some(b) => w < found_width || (w == found_width && idx < b),
                    None => true,
                };
                if better {
                    found = Some(idx);
                    found_width = w;
                }
            }
            k += 1;
        }
        proof {
            lemma_best_is_best(rs, lo as int, hi as int);
            assert forall|j: int|
                0 <= j < rs.len() && covers(#[trigger] rs[j], lo as int, hi as int) implies (found matches Some(b)
                    && ranks_before(rs, b as int, j)) by {
                if rs[j].1 == u128::MAX {
                    assert(self.open_ended@.contains((rs[j].0, j as usize)));
                    let m = choose|m: int|
                        0 <= m < self.open_ended@.len() && self.open_ended@[m] == (rs[j].0, j as usize);
                    assert(covers(rs[self.open_ended@[m].1 as int], lo as int, hi as int));
                }
            }
            match found {
                Some(b) => {
                    assert(is_best_among(rs, lo as int, hi as int, rs.len() as int, b as int));
                    if let Some(i) = best(rs, lo as int, hi as int) {
                        lemma_best_unique(rs, lo as int, hi as int, rs.len() as int, i, b as int);
                    }
                },
                None => {
                    if let Some(i) = best(rs, lo as int, hi as int) {
                        assert(covers(rs[i], lo as int, hi as int));
                    }
                },
            }
        }
        found
    }
}

} // verus!
