//! The indexed enumeration service: picking the requested entries out of the
//! enumeration of a caller's collection.

use crate::config::CustomError;
use crate::fetch::demux;
use crate::indices::{
    ascending, lemma_sort_unique, lemma_sort_unique_of_ascending, sort_unique, sorted_unique,
};
use crate::model::{Pair, StoreView};
use crate::request::{GetFiles, GetFilesView};
use crate::store::pairs_view;
use vstd::prelude::*;
use vstd::std_specs::iter::IteratorSpec;

verus! {

/// The position of the last dot in `name`, or `-1` where it has none.
pub open spec fn last_dot(name: Seq<char>) -> int
    decreases name.len(),
{
    if name.len() == 0 {
        -1
    } else if name.last() == '.' {
        name.len() - 1
    } else {
        last_dot(name.drop_last())
    }
}

/// The kind of an entry: what follows the last dot of its name. A name
/// without a dot, or whose only dot comes first, has the empty kind.
pub open spec fn kind_of(name: Seq<char>) -> Seq<char> {
    let dot = last_dot(name);
    if dot <= 0 {
        Seq::empty()
    } else {
        name.skip(dot + 1)
    }
}

/// What the service returns for one entry.
pub open spec fn entry_pair(name: Seq<char>) -> Pair {
    (name, kind_of(name))
}

/// The views of a list of names.
pub open spec fn names_view(names: Seq<String>) -> Seq<Seq<char>> {
    Seq::new(names.len(), |k: int| names[k]@)
}

/// Every index of `sorted` denotes an entry of the enumeration.
pub open spec fn covered(names: Seq<Seq<char>>, sorted: Seq<u32>) -> bool {
    forall|k: int| 0 <= k < sorted.len() ==> #[trigger] sorted[k] < names.len()
}

/// The entries at the positions `sorted`, in that order.
pub open spec fn select(names: Seq<Seq<char>>, sorted: Seq<u32>) -> Seq<Pair> {
    Seq::new(sorted.len(), |k: int| entry_pair(names[sorted[k] as int]))
}

/// What the service answers to a request, given the enumeration of the
/// caller's collection (`None` where the caller has none). Nothing is
/// returned unless every index can be served.
pub open spec fn listing(request: GetFilesView, names: Option<Seq<Seq<char>>>) -> Result<
    Seq<Pair>,
    CustomError,
> {
    if !request.in_range() {
        Err(CustomError::OutOfRange)
    } else {
        match names {
            None => Err(CustomError::MissingPath),
            Some(names) => if covered(names, sort_unique(request.indices)) {
                Ok(select(names, sort_unique(request.indices)))
            } else {
                Err(CustomError::OutOfRange)
            },
        }
    }
}

/// How many entries have to be read from the start of the enumeration to
/// serve the request: one more than its highest index.
pub open spec fn scan_length(request: GetFilesView) -> int {
    if sort_unique(request.indices).len() == 0 {
        0
    } else {
        sort_unique(request.indices).last() + 1
    }
}

/// The kind of an entry with this name.
pub fn entry_kind(name: &str) -> (r: String)
    ensures
        r@ == kind_of(name@),
{
    let n: usize = name.unicode_len();
    let mut it = name.chars();
    let mut i: usize = 0;
    let mut dot: Option<usize> = None;
    loop
        invariant
            i <= n,
            n == name@.len(),
            it.remaining() == name@.skip(i as int),
            match dot {
                Some(p) => p < i && last_dot(name@.take(i as int)) == p,
                None => last_dot(name@.take(i as int)) == -1,
            },
        decreases n - i,
    {
        match it.next() {
            Some(c) => {
                proof {
                    assert(name@.skip(i as int)[0] == name@[i as int]);
                    assert(name@.skip(i as int).drop_first() =~= name@.skip(i + 1));
                    assert(name@.take(i + 1).drop_last() =~= name@.take(i as int));
                    assert(name@.take(i + 1).last() == c);
                }
                if c == '.' {
                    dot = Some(i);
                }
                i += 1;
            },
            None => {
                proof {
                    assert(name@.skip(i as int).len() == 0);
                    assert(name@.take(i as int) =~= name@);
                }
                return match dot {
                    Some(p) => {
                        if p == 0 {
                            String::new()
                        } else {
                            proof {
                                assert(name@.skip(p + 1) =~= name@.subrange(p + 1, n as int));
                            }
                            name.substring_char(p + 1, n).to_owned()
                        }
                    },
                    None => String::new(),
                };
            },
        }
    }
}

/// How many entries the caller of [`get_files_indices`] has to read from the
/// start of the enumeration, or the error that the request earns by itself.
pub fn entries_needed(body: &GetFiles) -> (r: Result<usize, CustomError>)
    ensures
        match r {
            Ok(n) => body@.in_range() && n == scan_length(body@),
            Err(e) => !body@.in_range() && e == CustomError::OutOfRange,
        },
{
    if !body.is_in_range() {
        return Err(CustomError::OutOfRange);
    }
    let sorted = sorted_unique(&body.indices);
    if sorted.len() == 0 {
        Ok(0)
    } else {
        let top: u32 = sorted[sorted.len() - 1];
        proof {
            assert(sorted@.contains(sorted@[sorted@.len() - 1]));
            let k = choose|k: int| 0 <= k < body@.indices.len() && body@.indices[k] == top;
            assert(body@.indices[k] < body@.count);
        }
        Ok(top as usize + 1)
    }
}

/// Serves an indexed listing request. `names` holds the names of the
/// entries of the caller's collection in enumeration order, at least as far
/// as [`entries_needed`] says, or is `None` where the caller has no
/// collection. The answer holds one pair for each distinct index, in
/// ascending order of the indices.
pub fn get_files_indices(body: &GetFiles, names: Option<&Vec<String>>) -> (r: Result<
    Vec<(String, String)>,
    CustomError,
>)
    ensures
        match r {
            Ok(pairs) => listing(
                body@,
                match names {
                    Some(v) => Some(names_view(v@)),
                    None => None,
                },
            ) == Ok::<Seq<Pair>, CustomError>(pairs_view(pairs@)),
            Err(e) => listing(
                body@,
                match names {
                    Some(v) => Some(names_view(v@)),
                    None => None,
                },
            ) == Err::<Seq<Pair>, CustomError>(e),
        },
{
    if !body.is_in_range() {
        return Err(CustomError::OutOfRange);
    }
    let list: &Vec<String> = match names {
        Some(v) => v,
        None => {
            return Err(CustomError::MissingPath);
        },
    };
    let sorted = sorted_unique(&body.indices);
    let ghost all = names_view(list@);
    let mut pairs: Vec<(String, String)> = Vec::new();
    let mut k: usize = 0;
    while k < sorted.len()
        invariant
            k <= sorted.len(),
            all == names_view(list@),
            names == Some(list),
            body@.in_range(),
            sorted@ == sort_unique(body@.indices),
            forall|m: int| 0 <= m < k ==> #[trigger] sorted@[m] < list@.len(),
            pairs@.len() == k,
            forall|m: int|
                0 <= m < k ==> (#[trigger] pairs@[m]).0@ == all[sorted@[m] as int] && pairs@[m].1@
                    == kind_of(all[sorted@[m] as int]),
        decreases sorted.len() - k,
    {
        let at: usize = sorted[k] as usize;
        if at >= list.len() {
            proof {
                assert(!(sort_unique(body@.indices)[k as int] < all.len()));
                assert(!covered(all, sort_unique(body@.indices)));
            }
            return Err(CustomError::OutOfRange);
        }
        let name = list[at].clone();
        let kind = entry_kind(list[at].as_str());
        pairs.push((name, kind));
        k += 1;
    }
    proof {
        assert(covered(all, sorted@));
        assert(pairs_view(pairs@) =~= select(all, sorted@));
    }
    Ok(pairs)
}

/// The answer to an item count request: the number of entries in the
/// caller's collection, cut off at the largest `u32`.
pub fn get_file_count(names: Option<&Vec<String>>) -> (r: Result<u32, CustomError>)
    ensures
        r == match names {
            Some(v) => Ok::<u32, CustomError>(
                if v@.len() > u32::MAX {
                    u32::MAX
                } else {
                    v@.len() as u32
                },
            ),
            None => Err::<u32, CustomError>(CustomError::MissingPath),
        },
{
    match names {
        Some(v) => {
            let n: usize = v.len();
            if n > u32::MAX as usize {
                Ok(u32::MAX)
            } else {
                Ok(n as u32)
            }
        },
        None => Err(CustomError::MissingPath),
    }
}

/// A request with an index at or above its count is refused as a whole,
/// whatever the collection holds.
pub proof fn lemma_out_of_range(request: GetFilesView, names: Option<Seq<Seq<char>>>, k: int)
    requires
        0 <= k < request.indices.len(),
        request.indices[k] >= request.count,
    ensures
        listing(request, names) == Err::<Seq<Pair>, CustomError>(CustomError::OutOfRange),
{
}

/// Asking for index `0` of a collection counted as one entry gives exactly
/// the first entry.
pub proof fn lemma_single_entry(names: Seq<Seq<char>>)
    requires
        names.len() >= 1,
    ensures
        listing(GetFilesView { indices: seq![0u32], count: 1 }, Some(names)) == Ok::<
            Seq<Pair>,
            CustomError,
        >(seq![entry_pair(names[0])]),
{
    let request = GetFilesView { indices: seq![0u32], count: 1 };
    assert(ascending(request.indices));
    lemma_sort_unique_of_ascending(request.indices);
    assert(select(names, request.indices) =~= seq![entry_pair(names[0])]);
}

/// From the request to the cell: whatever list of indices the client wants,
/// the pair that it matches back to index `i` is the `i`-th entry of the
/// collection.
pub proof fn lemma_served_entries(wanted: Seq<u32>, count: u32, names: Seq<Seq<char>>, i: u32)
    requires
        wanted.contains(i),
        listing(GetFilesView { indices: sort_unique(wanted), count }, Some(names)) is Ok,
    ensures
        i < names.len(),
        demux(
            sort_unique(wanted),
            listing(GetFilesView { indices: sort_unique(wanted), count }, Some(names))->Ok_0,
        )[i] == entry_pair(names[i as int]),
{
    let sorted = sort_unique(wanted);
    lemma_sort_unique(wanted);
    lemma_sort_unique_of_ascending(sorted);
    assert(sorted.contains(i));
    let k = sorted.index_of(i);
    StoreView::lemma_position(sorted, k);
    assert(sorted[k] < names.len());
}

} // verus!
