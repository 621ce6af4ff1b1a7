//! The batch fetch client: reading the answer to a batch and matching it
//! back to the indices that were asked for.

use crate::count::{count_of, parse_count};
use crate::indices::{lemma_sort_unique, sort_unique};
use crate::item::{ItemData, ItemView};
use crate::model::{Pair, StoreView};
use crate::request::GetFiles;
use crate::store::pairs_view;
use vstd::prelude::*;

verus! {

/// The error of `serde_json`, carried through unopened.
#[verifier::external_type_specification]
#[verifier::external_body]
pub struct ExJsonError(serde_json::Error);

/// What `serde_json` makes of a text that is to hold a list of string pairs:
/// the pairs, or `None` where it reports an error.
pub uninterp spec fn json_pairs(text: Seq<char>) -> Option<Seq<Pair>>;

/// Calls `serde_json::from_str` at the type `Vec<(String, String)>`. Not
/// proved: that the outcome depends on the text alone, so that
/// [`json_pairs`] can name it, with an error of `serde_json` standing for
/// `None`.
#[verifier::external_body]
fn parse_pairs(text: &str) -> (r: Result<Vec<(String, String)>, serde_json::Error>)
    ensures
        match r {
            Ok(pairs) => json_pairs(text@) == Some(pairs_view(pairs@)),
            Err(_) => json_pairs(text@) is None,
        },
{
    serde_json::from_str::<Vec<(String, String)>>(text)
}

/// What the listing service can report instead of data.
#[derive(Clone, Copy, Debug, PartialEq, Eq, Structural)]
pub enum ServerFault {
    /// The credential was missing or rejected.
    Unauthorized,
    /// The count was zero or an index did not lie below it.
    OutOfRange,
    /// The caller has no collection.
    NotFound,
    /// Any other status that is not a success.
    Other,
}

/// Why a batch brought no data.
#[derive(Clone, Copy, Debug, PartialEq, Eq, Structural)]
pub enum FetchError {
    /// The service could not be reached.
    NetworkError,
    /// The body is not a list of pairs, one for each index.
    DecodeError,
    /// The service answered with an error status.
    ServerError(ServerFault),
}

/// What came back for a request, as the transport hands it over.
#[derive(Clone, Debug)]
pub enum Reply {
    /// The transport failed, or gave up waiting.
    Unreachable,
    /// The service answered.
    Answer { status: u16, body: String },
}

/// The fault that a response status stands for; `None` for a success.
pub open spec fn status_fault(status: u16) -> Option<ServerFault> {
    if 200 <= status <= 299 {
        None
    } else if status == 401 {
        Some(ServerFault::Unauthorized)
    } else if status == 404 {
        Some(ServerFault::NotFound)
    } else if status == 416 {
        Some(ServerFault::OutOfRange)
    } else {
        Some(ServerFault::Other)
    }
}

/// The fault that a response status stands for; `None` for a success.
pub fn fault_of_status(status: u16) -> (r: Option<ServerFault>)
    ensures
        r == status_fault(status),
{
    if 200 <= status && status <= 299 {
        None
    } else if status == 401 {
        Some(ServerFault::Unauthorized)
    } else if status == 404 {
        Some(ServerFault::NotFound)
    } else if status == 416 {
        Some(ServerFault::OutOfRange)
    } else {
        Some(ServerFault::Other)
    }
}

/// The outcome of a fetch for `indices`, given the response status and what
/// the body reads as.
pub open spec fn answer_outcome(indices: Seq<u32>, status: u16, parsed: Option<Seq<Pair>>) -> Result<
    Seq<Pair>,
    FetchError,
> {
    match status_fault(status) {
        Some(fault) => Err(FetchError::ServerError(fault)),
        None => match parsed {
            Some(pairs) => if pairs.len() == indices.len() {
                Ok(pairs)
            } else {
                Err(FetchError::DecodeError)
            },
            None => Err(FetchError::DecodeError),
        },
    }
}

/// Judges an answer whose body has already been read: an error status is a
/// server error, a body that did not read or has the wrong number of pairs is
/// a decode error, anything else is the data.
pub fn judge_answer(indices: &Vec<u32>, status: u16, parsed: Option<Vec<(String, String)>>) -> (r:
    Result<Vec<(String, String)>, FetchError>)
    ensures
        match r {
            Ok(pairs) => answer_outcome(
                indices@,
                status,
                match parsed {
                    Some(p) => Some(pairs_view(p@)),
                    None => None,
                },
            ) == Ok::<Seq<Pair>, FetchError>(pairs_view(pairs@)),
            Err(e) => answer_outcome(
                indices@,
                status,
                match parsed {
                    Some(p) => Some(pairs_view(p@)),
                    None => None,
                },
            ) == Err::<Seq<Pair>, FetchError>(e),
        },
{
    match fault_of_status(status) {
        Some(fault) => Err(FetchError::ServerError(fault)),
        None => match parsed {
            Some(pairs) => if pairs.len() == indices.len() {
                Ok(pairs)
            } else {
                Err(FetchError::DecodeError)
            },
            None => Err(FetchError::DecodeError),
        },
    }
}

/// The outcome of a fetch, given what the transport handed over.
pub open spec fn reply_outcome(indices: Seq<u32>, reply: Reply) -> Result<Seq<Pair>, FetchError> {
    match reply {
        Reply::Unreachable => Err(FetchError::NetworkError),
        Reply::Answer { status, body } => answer_outcome(indices, status, json_pairs(body@)),
    }
}

/// Reads what came back for `request`. On success there is exactly one pair
/// for each index of the request, in the order of the indices.
pub fn read_reply(request: &GetFiles, reply: &Reply) -> (r: Result<
    Vec<(String, String)>,
    FetchError,
>)
    ensures
        match r {
            Ok(pairs) => reply_outcome(request@.indices, *reply) == Ok::<Seq<Pair>, FetchError>(
                pairs_view(pairs@),
            ) && pairs@.len() == request@.indices.len(),
            Err(e) => reply_outcome(request@.indices, *reply) == Err::<Seq<Pair>, FetchError>(e),
        },
{
    match reply {
        Reply::Unreachable => Err(FetchError::NetworkError),
        Reply::Answer { status, body } => {
            let parsed = match parse_pairs(body.as_str()) {
                Ok(pairs) => Some(pairs),
                Err(_) => None,
            };
            judge_answer(&request.indices, *status, parsed)
        },
    }
}

/// The outcome of an item count request, given what the transport handed over.
pub open spec fn count_outcome(reply: Reply) -> Result<u32, FetchError> {
    match reply {
        Reply::Unreachable => Err(FetchError::NetworkError),
        Reply::Answer { status, body } => match status_fault(status) {
            Some(fault) => Err(FetchError::ServerError(fault)),
            None => match count_of(body@) {
                Some(count) => Ok(count),
                None => Err(FetchError::DecodeError),
            },
        },
    }
}

/// Reads what came back for an item count request.
pub fn read_count(reply: &Reply) -> (r: Result<u32, FetchError>)
    ensures
        r == count_outcome(*reply),
{
    match reply {
        Reply::Unreachable => Err(FetchError::NetworkError),
        Reply::Answer { status, body } => match fault_of_status(*status) {
            Some(fault) => Err(FetchError::ServerError(fault)),
            None => match parse_count(body.as_str()) {
                Some(count) => Ok(count),
                None => Err(FetchError::DecodeError),
            },
        },
    }
}

/// The pair that belongs to each index: the answer is aligned to the indices
/// position by position.
pub open spec fn demux(indices: Seq<u32>, pairs: Seq<Pair>) -> Map<u32, Pair> {
    Map::new(|i: u32| indices.contains(i), |i: u32| pairs[indices.index_of(i)])
}

/// Matches an answer back to the indices it was asked for: the cell for the
/// `k`-th index carries the `k`-th pair. `None` where the numbers differ.
pub fn demux_items(indices: &Vec<u32>, pairs: &Vec<(String, String)>) -> (r: Option<Vec<ItemData>>)
    ensures
        r is Some <==> pairs@.len() == indices@.len(),
        r matches Some(items) ==> items@.len() == indices@.len() && forall|k: int|
            0 <= k < items@.len() ==> (#[trigger] items@[k])@ == ItemView::loaded(
                indices@[k],
                pairs@[k].0@,
                pairs@[k].1@,
            ),
{
    if pairs.len() != indices.len() {
        return None;
    }
    let mut items: Vec<ItemData> = Vec::new();
    let mut k: usize = 0;
    while k < indices.len()
        invariant
            k <= indices.len(),
            pairs@.len() == indices@.len(),
            items@.len() == k,
            forall|m: int|
                0 <= m < k ==> (#[trigger] items@[m])@ == ItemView::loaded(
                    indices@[m],
                    pairs@[m].0@,
                    pairs@[m].1@,
                ),
        decreases indices.len() - k,
    {
        items.push(ItemData::loaded(indices[k], pairs[k].0.clone(), pairs[k].1.clone()));
        k += 1;
    }
    Some(items)
}

/// However a set of indices is listed, in any order and with repeats, the
/// answer to its sorted form gives every index exactly one pair: no index is
/// missing, none is added, and none sits at two positions.
pub proof fn lemma_round_trip(wanted: Seq<u32>, pairs: Seq<Pair>)
    requires
        pairs.len() == sort_unique(wanted).len(),
    ensures
        forall|i: u32| #[trigger] demux(sort_unique(wanted), pairs).contains_key(i) <==> wanted.contains(i),
        forall|k: int|
            0 <= k < pairs.len() ==> demux(sort_unique(wanted), pairs)[#[trigger] sort_unique(
                wanted,
            )[k]] == pairs[k],
        sort_unique(wanted).no_duplicates(),
{
    let sorted = sort_unique(wanted);
    lemma_sort_unique(wanted);
    assert forall|k: int| 0 <= k < pairs.len() implies demux(sorted, pairs)[#[trigger] sorted[k]]
        == pairs[k] by {
        StoreView::lemma_position(sorted, k);
    }
}

} // verus!
