//! Putting blocks together with their blobs or columns.
use crate::globals::contains_u64;
use crate::ordered_map::OrderedMap;
use crate::sync::messages::{BlobSidecar, DataColumnSidecar, SignedBeaconBlock};
use crate::types::{ChainSpec, ColumnIndex, Hash256, PeerId};
use std::collections::HashMap;
use vstd::prelude::*;
use vstd::string::*;

verus! {

broadcast use vstd::std_specs::hash::group_hash_axioms;

/// The data that belongs to a block.
#[derive(Debug, PartialEq)]
pub enum RpcBlockData {
    /// No data; the node custodies this many columns.
    NoData { custody_columns_count: usize },
    Blobs(Vec<BlobSidecar>),
    /// Columns, and the indices of all the columns that the node custodies.
    CustodyColumns { columns: Vec<DataColumnSidecar>, custody_column_indices: Vec<ColumnIndex> },
}

/// A block with its data, ready for processing.
#[derive(Debug, PartialEq)]
pub struct RpcBlock {
    pub block_root: Option<Hash256>,
    pub block: SignedBeaconBlock,
    pub data: RpcBlockData,
}

/// The contents of a block's data.
pub enum RpcBlockDataView {
    NoData { custody_columns_count: usize },
    Blobs(Seq<BlobSidecar>),
    CustodyColumns { columns: Seq<DataColumnSidecar>, custody_column_indices: Seq<ColumnIndex> },
}

/// The contents of a block with its data.
pub struct RpcBlockView {
    pub block_root: Option<Hash256>,
    pub block: SignedBeaconBlock,
    pub data: RpcBlockDataView,
}

impl RpcBlock {
    pub open spec fn view(self) -> RpcBlockView {
        RpcBlockView {
            block_root: self.block_root,
            block: self.block,
            data: match self.data {
                RpcBlockData::NoData { custody_columns_count } => RpcBlockDataView::NoData {
                    custody_columns_count,
                },
                RpcBlockData::Blobs(blobs) => RpcBlockDataView::Blobs(blobs@),
                RpcBlockData::CustodyColumns { columns, custody_column_indices } => {
                    RpcBlockDataView::CustodyColumns {
                        columns: columns@,
                        custody_column_indices: custody_column_indices@,
                    }
                },
            },
        }
    }

    /// A block without data.
    pub fn new_without_blobs(
        block_root: Option<Hash256>,
        block: SignedBeaconBlock,
        custody_columns_count: usize,
    ) -> (r: Self)
        ensures
            r@ == (RpcBlockView {
                block_root,
                block,
                data: RpcBlockDataView::NoData { custody_columns_count },
            }),
    {
        RpcBlock { block_root, block, data: RpcBlockData::NoData { custody_columns_count } }
    }
}

/// The contents of blocks with their data.
pub open spec fn rpc_views(blocks: Seq<RpcBlock>) -> Seq<RpcBlockView> {
    blocks.map_values(|b: RpcBlock| b@)
}

/// The peers that a batch came from: one for the blocks, and one for each column.
pub struct BatchPeers {
    pub block_peer: PeerId,
    pub column_peers: HashMap<ColumnIndex, PeerId>,
}

impl BatchPeers {
    pub fn new_from_block_peer(block_peer: PeerId) -> (r: Self)
        ensures
            r.block_peer == block_peer,
            r.column_peers@ == Map::<ColumnIndex, PeerId>::empty(),
    {
        BatchPeers { block_peer, column_peers: HashMap::new() }
    }

    pub fn new(block_peer: PeerId, column_peers: HashMap<ColumnIndex, PeerId>) -> (r: Self)
        ensures
            r.block_peer == block_peer,
            r.column_peers == column_peers,
    {
        BatchPeers { block_peer, column_peers }
    }

    /// The peer that served the blocks.
    pub fn block(&self) -> (r: PeerId)
        ensures
            r == self.block_peer,
    {
        self.block_peer
    }
}

/// Why components could not be put together.
#[derive(Debug, PartialEq)]
pub enum Error {
    InternalError(String),
}

impl From<Error> for crate::sync::errors::RpcResponseError {
    fn from(e: Error) -> (r: Self) {
        match e {
            Error::InternalError(e) => crate::sync::errors::RpcResponseError::InternalError(e),
        }
    }
}

impl vstd::std_specs::convert::FromSpecImpl<Error> for crate::sync::errors::RpcResponseError {
    open spec fn obeys_from_spec() -> bool {
        true
    }

    open spec fn from_spec(e: Error) -> Self {
        match e {
            Error::InternalError(e) => crate::sync::errors::RpcResponseError::InternalError(e),
        }
    }
}

impl From<Error> for crate::sync::errors::RpcRequestSendError {
    fn from(e: Error) -> (r: Self) {
        match e {
            Error::InternalError(e) => crate::sync::errors::RpcRequestSendError::InternalError(e),
        }
    }
}

impl vstd::std_specs::convert::FromSpecImpl<Error> for crate::sync::errors::RpcRequestSendError {
    open spec fn obeys_from_spec() -> bool {
        true
    }

    open spec fn from_spec(e: Error) -> Self {
        match e {
            Error::InternalError(e) => crate::sync::errors::RpcRequestSendError::InternalError(e),
        }
    }
}

/// Whether no block before position `i` has the same root as the one there.
pub open spec fn first_of_root(blocks: Seq<SignedBeaconBlock>, i: int) -> bool {
    forall|j: int| 0 <= j < i ==> (#[trigger] blocks[j]).root != blocks[i].root
}

/// The blobs of block `root`, in the order received.
pub open spec fn blobs_of(blobs: Seq<BlobSidecar>, root: Hash256) -> Seq<BlobSidecar> {
    blobs.filter(|b: BlobSidecar| b.block_root == root)
}

/// The blobs that go with the `i`th block: those of its root, unless an earlier block took them.
pub open spec fn blobs_for(
    blocks: Seq<SignedBeaconBlock>,
    blobs: Seq<BlobSidecar>,
    i: int,
) -> Seq<BlobSidecar> {
    if first_of_root(blocks, i) {
        blobs_of(blobs, blocks[i].root)
    } else {
        Seq::empty()
    }
}

/// Whether some block would get more blobs than it can have.
pub open spec fn too_many_blobs(
    blocks: Seq<SignedBeaconBlock>,
    blobs: Seq<BlobSidecar>,
    spec: ChainSpec,
) -> bool {
    exists|i: int|
        0 <= i < blocks.len() && #[trigger] blobs_for(blocks, blobs, i).len()
            > spec.spec_max_blobs_per_block(spec.spec_epoch_of(blocks[i].slot))
}

/// The columns of block `root` that the node custodies, in the order received.
pub open spec fn columns_of(
    columns: Seq<DataColumnSidecar>,
    root: Hash256,
    custody: Seq<ColumnIndex>,
) -> Seq<DataColumnSidecar> {
    columns.filter(|c: DataColumnSidecar| c.block_root == root && custody.contains(c.index))
}

/// The columns that go with the `i`th block: those of its root, unless an earlier block took them.
pub open spec fn columns_for(
    blocks: Seq<SignedBeaconBlock>,
    columns: Seq<DataColumnSidecar>,
    custody: Seq<ColumnIndex>,
    i: int,
) -> Seq<DataColumnSidecar> {
    if first_of_root(blocks, i) {
        columns_of(columns, blocks[i].root, custody)
    } else {
        Seq::empty()
    }
}

/// The blocks, each without data.
pub open spec fn coupled_base(blocks: Seq<SignedBeaconBlock>, custody_columns_count: usize) -> Seq<
    RpcBlockView,
> {
    Seq::new(
        blocks.len(),
        |i: int|
            RpcBlockView {
                block_root: None,
                block: blocks[i],
                data: RpcBlockDataView::NoData { custody_columns_count },
            },
    )
}

/// The blocks, each with its blobs.
pub open spec fn coupled_deneb(blocks: Seq<SignedBeaconBlock>, blobs: Seq<BlobSidecar>) -> Seq<
    RpcBlockView,
> {
    Seq::new(
        blocks.len(),
        |i: int|
            RpcBlockView {
                block_root: Some(blocks[i].root),
                block: blocks[i],
                data: RpcBlockDataView::Blobs(blobs_for(blocks, blobs, i)),
            },
    )
}

/// The blocks, each with its columns.
pub open spec fn coupled_fulu(
    blocks: Seq<SignedBeaconBlock>,
    columns: Seq<DataColumnSidecar>,
    custody: Seq<ColumnIndex>,
) -> Seq<RpcBlockView> {
    Seq::new(
        blocks.len(),
        |i: int|
            RpcBlockView {
                block_root: Some(blocks[i].root),
                block: blocks[i],
                data: RpcBlockDataView::CustodyColumns {
                    columns: columns_for(blocks, columns, custody, i),
                    custody_column_indices: custody,
                },
            },
    )
}

/// Couples blocks that have no data.
pub fn couple_blocks_base(blocks: &Vec<SignedBeaconBlock>, custody_columns_count: usize) -> (r: Vec<
    RpcBlock,
>)
    ensures
        rpc_views(r@) == coupled_base(blocks@, custody_columns_count),
{
    let mut r: Vec<RpcBlock> = Vec::new();
    let mut i: usize = 0;
    while i < blocks.len()
        invariant
            i <= blocks@.len(),
            r@.len() == i,
            forall|j: int|
                0 <= j < i ==> (#[trigger] r@[j])@ == coupled_base(blocks@, custody_columns_count)[j],
        decreases blocks@.len() - i,
    {
        r.push(RpcBlock::new_without_blobs(None, blocks[i], custody_columns_count));
        i += 1;
    }
    assert(rpc_views(r@) =~= coupled_base(blocks@, custody_columns_count));
    r
}

/// The blobs that are left for each root after the first `n` blocks took theirs.
spec fn blobs_left(
    left: Map<Hash256, Vec<BlobSidecar>>,
    blocks: Seq<SignedBeaconBlock>,
    blobs: Seq<BlobSidecar>,
    n: int,
) -> bool {
    forall|root: Hash256| #[trigger]
        left_for(left, root) == (if exists|j: int| 0 <= j < n && (#[trigger] blocks[j]).root == root {
            Seq::empty()
        } else {
            blobs_of(blobs, root)
        })
}

spec fn left_for<T>(left: Map<Hash256, Vec<T>>, root: Hash256) -> Seq<T> {
    if left.contains_key(root) {
        left[root]@
    } else {
        Seq::empty()
    }
}

fn group_blobs(blobs: &Vec<BlobSidecar>) -> (r: OrderedMap<Hash256, Vec<BlobSidecar>>)
    ensures
        r.wf(),
        forall|root: Hash256| #[trigger] left_for(r@, root) == blobs_of(blobs@, root),
{
    let mut r: OrderedMap<Hash256, Vec<BlobSidecar>> = OrderedMap::new();
    proof {
        reveal(Seq::filter);
    }
    let mut i: usize = 0;
    while i < blobs.len()
        invariant
            i <= blobs@.len(),
            r.wf(),
            forall|root: Hash256| #[trigger]
                left_for(r@, root) == blobs_of(blobs@.take(i as int), root),
        decreases blobs@.len() - i,
    {
        let blob = blobs[i];
        let ghost before = r@;
        let mut list = match r.remove(&blob.block_root) {
            Some(list) => list,
            None => Vec::new(),
        };
        assert(list@ =~= left_for(before, blob.block_root));
        list.push(blob);
        r.insert(blob.block_root, list);
        proof {
            reveal(Seq::filter);
            assert(blobs@.take(i + 1).drop_last() =~= blobs@.take(i as int));
            assert forall|root: Hash256| #[trigger] left_for(r@, root) == blobs_of(
                blobs@.take(i + 1),
                root,
            ) by {
                assert(left_for(before, root) == blobs_of(blobs@.take(i as int), root));
            }
        }
        i += 1;
    }
    assert(blobs@.take(i as int) =~= blobs@);
    r
}

/// Couples blocks with their blobs. Blobs that belong to no block are ignored. That the blobs are
/// those to which their block commits is for the caller to see to.
pub fn couple_blocks_deneb(
    blocks: &Vec<SignedBeaconBlock>,
    blobs: &Vec<BlobSidecar>,
    spec: &ChainSpec,
) -> (r: Result<Vec<RpcBlock>, Error>)
    requires
        spec.wf(),
    ensures
        too_many_blobs(blocks@, blobs@, *spec) ==> (r matches Err(Error::InternalError(e)) && e@
            == "Blobs returned exceeds max length"@),
        !too_many_blobs(blocks@, blobs@, *spec) ==> (r matches Ok(v) && rpc_views(v@) == coupled_deneb(
            blocks@,
            blobs@,
        )),
{
    let mut left = group_blobs(blobs);
    let mut r: Vec<RpcBlock> = Vec::new();
    let mut i: usize = 0;
    while i < blocks.len()
        invariant
            i <= blocks@.len(),
            spec.wf(),
            left.wf(),
            blobs_left(left@, blocks@, blobs@, i as int),
            r@.len() == i,
            forall|j: int|
                0 <= j < i ==> #[trigger] blobs_for(blocks@, blobs@, j).len()
                    <= spec.spec_max_blobs_per_block(spec.spec_epoch_of(blocks@[j].slot)),
            forall|j: int| 0 <= j < i ==> (#[trigger] r@[j])@ == coupled_deneb(blocks@, blobs@)[j],
        decreases blocks@.len() - i,
    {
        let block = blocks[i];
        let ghost before = left@;
        let max_blobs: u64 = spec.max_blobs_per_block(spec.epoch_of(block.slot));
        let own = match left.remove(&block.root) {
            Some(own) => own,
            None => Vec::new(),
        };
        proof {
            assert(own@ =~= left_for(before, block.root));
            assert(own@ == blobs_for(blocks@, blobs@, i as int));
            assert forall|root: Hash256| #[trigger] left_for(left@, root) == (if exists|j: int|
                0 <= j < i + 1 && (#[trigger] blocks@[j]).root == root {
                Seq::empty()
            } else {
                blobs_of(blobs@, root)
            }) by {
                assert(left_for(before, root) == (if exists|j: int|
                    0 <= j < i && (#[trigger] blocks@[j]).root == root {
                    Seq::empty()
                } else {
                    blobs_of(blobs@, root)
                }));
                if root == block.root {
                    assert(blocks@[i as int].root == root);
                }
            }
        }
        if own.len() as u64 > max_blobs {
            assert(too_many_blobs(blocks@, blobs@, *spec)) by {
                assert(blobs_for(blocks@, blobs@, i as int).len() > max_blobs);
            }
            return Err(Error::InternalError("Blobs returned exceeds max length".to_owned()));
        }
        r.push(
            RpcBlock { block_root: Some(block.root), block, data: RpcBlockData::Blobs(own) },
        );
        i += 1;
    }
    assert(rpc_views(r@) =~= coupled_deneb(blocks@, blobs@));
    Ok(r)
}

spec fn columns_left(
    left: Map<Hash256, Vec<DataColumnSidecar>>,
    blocks: Seq<SignedBeaconBlock>,
    columns: Seq<DataColumnSidecar>,
    custody: Seq<ColumnIndex>,
    n: int,
) -> bool {
    forall|root: Hash256| #[trigger]
        left_for(left, root) == (if exists|j: int| 0 <= j < n && (#[trigger] blocks[j]).root == root {
            Seq::empty()
        } else {
            columns_of(columns, root, custody)
        })
}

fn group_columns(columns: &Vec<DataColumnSidecar>, custody: &Vec<ColumnIndex>) -> (r: OrderedMap<
    Hash256,
    Vec<DataColumnSidecar>,
>)
    ensures
        r.wf(),
        forall|root: Hash256| #[trigger]
            left_for(r@, root) == columns_of(columns@, root, custody@),
{
    let mut r: OrderedMap<Hash256, Vec<DataColumnSidecar>> = OrderedMap::new();
    proof {
        reveal(Seq::filter);
    }
    let mut i: usize = 0;
    while i < columns.len()
        invariant
            i <= columns@.len(),
            r.wf(),
            forall|root: Hash256| #[trigger]
                left_for(r@, root) == columns_of(columns@.take(i as int), root, custody@),
        decreases columns@.len() - i,
    {
        let column = columns[i];
        let ghost before = r@;
        if contains_u64(custody, column.index) {
            let mut list = match r.remove(&column.block_root) {
                Some(list) => list,
                None => Vec::new(),
            };
            assert(list@ =~= left_for(before, column.block_root));
            list.push(column);
            r.insert(column.block_root, list);
        }
        proof {
            reveal(Seq::filter);
            assert(columns@.take(i + 1).drop_last() =~= columns@.take(i as int));
            assert forall|root: Hash256| #[trigger] left_for(r@, root) == columns_of(
                columns@.take(i + 1),
                root,
                custody@,
            ) by {
                assert(left_for(before, root) == columns_of(columns@.take(i as int), root, custody@));
            }
        }
        i += 1;
    }
    assert(columns@.take(i as int) =~= columns@);
    r
}

/// Pairs blocks with their custody columns. Columns that the node does not custody and columns that
/// belong to no block are ignored.
pub fn pair_blocks_with_columns(
    blocks: &Vec<SignedBeaconBlock>,
    data_columns: &Vec<DataColumnSidecar>,
    custody_column_indices: &Vec<ColumnIndex>,
) -> (r: Vec<RpcBlock>)
    ensures
        rpc_views(r@) == coupled_fulu(blocks@, data_columns@, custody_column_indices@),
{
    let mut left = group_columns(data_columns, custody_column_indices);
    let mut r: Vec<RpcBlock> = Vec::new();
    let ghost custody = custody_column_indices@;
    let mut i: usize = 0;
    while i < blocks.len()
        invariant
            i <= blocks@.len(),
            custody == custody_column_indices@,
            left.wf(),
            columns_left(left@, blocks@, data_columns@, custody, i as int),
            r@.len() == i,
            forall|j: int|
                0 <= j < i ==> (#[trigger] r@[j])@ == coupled_fulu(blocks@, data_columns@, custody)[j],
        decreases blocks@.len() - i,
    {
        let block = blocks[i];
        let ghost before = left@;
        let own = match left.remove(&block.root) {
            Some(own) => own,
            None => Vec::new(),
        };
        proof {
            assert(own@ =~= left_for(before, block.root));
            assert(own@ == columns_for(blocks@, data_columns@, custody, i as int));
            assert forall|root: Hash256| #[trigger] left_for(left@, root) == (if exists|j: int|
                0 <= j < i + 1 && (#[trigger] blocks@[j]).root == root {
                Seq::empty()
            } else {
                columns_of(data_columns@, root, custody)
            }) by {
                assert(left_for(before, root) == (if exists|j: int|
                    0 <= j < i && (#[trigger] blocks@[j]).root == root {
                    Seq::empty()
                } else {
                    columns_of(data_columns@, root, custody)
                }));
                if root == block.root {
                    assert(blocks@[i as int].root == root);
                }
            }
        }
        r.push(
            RpcBlock {
                block_root: Some(block.root),
                block,
                data: RpcBlockData::CustodyColumns {
                    columns: own,
                    custody_column_indices: custody_column_indices.clone(),
                },
            },
        );
        i += 1;
    }
    assert(rpc_views(r@) =~= coupled_fulu(blocks@, data_columns@, custody));
    r
}

/// Why the columns of the block at position `i` were refused, where they were.
pub open spec fn refusal_at(refusals: Seq<Option<String>>, i: int) -> Option<Seq<char>> {
    if 0 <= i < refusals.len() && refusals[i] is Some {
        Some(refusals[i]->Some_0@)
    } else {
        None
    }
}

/// The reason of the first refusal among the first `n` blocks.
pub open spec fn first_refusal(refusals: Seq<Option<String>>, n: nat) -> Option<Seq<char>>
    decreases n,
{
    if n == 0 {
        None
    } else {
        match first_refusal(refusals, (n - 1) as nat) {
            Some(reason) => Some(reason),
            None => refusal_at(refusals, n - 1),
        }
    }
}

/// Couples blocks with their custody columns, unless the columns of some block were refused: the
/// error is then the reason of the first refusal.
///
/// `refusals` says for each block, in its place, why a block with the columns that
/// [`pair_blocks_with_columns`] gives it cannot be built, where that is so; a block past its end is
/// not refused. Which columns are refused is up to the caller, who builds the blocks.
pub fn couple_blocks_fulu(
    blocks: &Vec<SignedBeaconBlock>,
    data_columns: &Vec<DataColumnSidecar>,
    custody_column_indices: &Vec<ColumnIndex>,
    refusals: &Vec<Option<String>>,
) -> (r: Result<Vec<RpcBlock>, Error>)
    ensures
        match first_refusal(refusals@, blocks@.len()) {
            Some(reason) => r matches Err(Error::InternalError(e)) && e@ == reason,
            None => r matches Ok(coupled) && rpc_views(coupled@) == coupled_fulu(
                blocks@,
                data_columns@,
                custody_column_indices@,
            ),
        },
{
    let n: usize = blocks.len();
    let mut i: usize = 0;
    while i < n
        invariant
            i <= n,
            n == blocks@.len(),
            first_refusal(refusals@, i as nat) is None,
        decreases n - i,
    {
        if i < refusals.len() {
            if let Some(reason) = &refusals[i] {
                proof {
                    assert(first_refusal(refusals@, (i + 1) as nat) == Some(reason@));
                    lemma_first_refusal_stays(refusals@, (i + 1) as nat, n as nat);
                }
                return Err(Error::InternalError(reason.clone()));
            }
        }
        i += 1;
    }
    Ok(pair_blocks_with_columns(blocks, data_columns, custody_column_indices))
}

proof fn lemma_first_refusal_stays(refusals: Seq<Option<String>>, m: nat, n: nat)
    requires
        m <= n,
        first_refusal(refusals, m) is Some,
    ensures
        first_refusal(refusals, n) == first_refusal(refusals, m),
    decreases n,
{
    if m < n {
        lemma_first_refusal_stays(refusals, m, (n - 1) as nat);
    }
}

/// Coupling keeps every block, in its place, and gives it only columns of its own root that the
/// node custodies.
pub proof fn law_coupled_columns_belong(
    blocks: Seq<SignedBeaconBlock>,
    columns: Seq<DataColumnSidecar>,
    custody: Seq<ColumnIndex>,
    i: int,
    k: int,
)
    requires
        0 <= i < blocks.len(),
        0 <= k < columns_for(blocks, columns, custody, i).len(),
    ensures
        ({
            let column = columns_for(blocks, columns, custody, i)[k];
            &&& columns.contains(column)
            &&& column.block_root == blocks[i].root
            &&& custody.contains(column.index)
        }),
{
    let keep = |c: DataColumnSidecar| c.block_root == blocks[i].root && custody.contains(c.index);
    let own = columns.filter(keep);
    let column = own[k];
    columns.lemma_filter_contains_rev(keep, column);
    columns.lemma_filter_pred(keep, k);
}

/// With distinct block roots every blob of a block's root goes with that block.
pub proof fn law_blobs_go_with_their_block(
    blocks: Seq<SignedBeaconBlock>,
    blobs: Seq<BlobSidecar>,
    i: int,
    blob: BlobSidecar,
)
    requires
        0 <= i < blocks.len(),
        forall|a: int, b: int|
            0 <= a < b < blocks.len() ==> (#[trigger] blocks[a]).root != (#[trigger] blocks[b]).root,
    ensures
        blobs_for(blocks, blobs, i).contains(blob) <==> blobs.contains(blob) && blob.block_root
            == blocks[i].root,
{
    let keep = |b: BlobSidecar| b.block_root == blocks[i].root;
    assert(first_of_root(blocks, i));
    let own = blobs.filter(keep);
    if own.contains(blob) {
        let k = choose|k: int| 0 <= k < own.len() && own[k] == blob;
        blobs.lemma_filter_contains_rev(keep, blob);
        blobs.lemma_filter_pred(keep, k);
    }
    if blobs.contains(blob) && blob.block_root == blocks[i].root {
        let k = choose|k: int| 0 <= k < blobs.len() && blobs[k] == blob;
        blobs.lemma_filter_contains(keep, k);
    }
}

} // verus!
