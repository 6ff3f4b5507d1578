//! What blocks are coupled with.
use crate::positions;
use crate::sync::coupling;
use crate::sync::coupling::RpcBlockDataView;
use crate::sync::messages::{BlobSidecar, DataColumnSidecar, SignedBeaconBlock};
use crate::types::{ChainSpec, ColumnIndex};
use vstd::prelude::*;

verus! {

/// Whether no two blocks have the same root.
pub open spec fn distinct_block_roots(blocks: Seq<SignedBeaconBlock>) -> bool {
    forall|a: int, b: int|
        0 <= a < b < blocks.len() ==> (#[trigger] blocks[a]).root != (#[trigger] blocks[b]).root
}

/// Whether an earlier block has the root of the `i`th one.
pub open spec fn repeats_a_root(blocks: Seq<SignedBeaconBlock>, i: int) -> bool {
    exists|j: int| 0 <= j < i && (#[trigger] blocks[j]).root == blocks[i].root
}

/// The received blobs that are of block `i`.
pub open spec fn is_blob_of(
    blocks: Seq<SignedBeaconBlock>,
    blobs: Seq<BlobSidecar>,
    i: int,
) -> spec_fn(int) -> bool {
    |k: int| blobs[k].block_root == blocks[i].root
}

/// The received columns that are of block `i` and in custody.
pub open spec fn is_custody_column_of(
    blocks: Seq<SignedBeaconBlock>,
    columns: Seq<DataColumnSidecar>,
    custody: Seq<ColumnIndex>,
    i: int,
) -> spec_fn(int) -> bool {
    |k: int| columns[k].block_root == blocks[i].root && custody.contains(columns[k].index)
}

/// Coupling with columns keeps every block in its place, under its root, and gives it the received
/// columns of that root whose index is in custody, all of them and in the order received. A block
/// whose root was there before gets none.
pub proof fn law_blocks_are_coupled_with_their_columns(
    blocks: Seq<SignedBeaconBlock>,
    columns: Seq<DataColumnSidecar>,
    custody: Seq<ColumnIndex>,
)
    ensures
        coupling::coupled_fulu(blocks, columns, custody).len() == blocks.len(),
        forall|i: int|
            0 <= i < blocks.len() ==> {
                let coupled = #[trigger] coupling::coupled_fulu(blocks, columns, custody)[i];
                &&& coupled.block == blocks[i]
                &&& coupled.block_root == Some(blocks[i].root)
                &&& coupled.data matches RpcBlockDataView::CustodyColumns {
                    columns: own,
                    custody_column_indices,
                } && custody_column_indices == custody && (repeats_a_root(blocks, i) ==> own.len()
                    == 0) && (!repeats_a_root(blocks, i) ==> positions::is_picked(
                    columns,
                    is_custody_column_of(blocks, columns, custody, i),
                    own,
                ))
            },
{
    assert forall|i: int| 0 <= i < blocks.len() implies ({
        let coupled = #[trigger] coupling::coupled_fulu(blocks, columns, custody)[i];
        coupled.data matches RpcBlockDataView::CustodyColumns { columns: own, custody_column_indices }
            && (repeats_a_root(blocks, i) ==> own.len() == 0) && (!repeats_a_root(blocks, i)
            ==> positions::is_picked(
            columns,
            is_custody_column_of(blocks, columns, custody, i),
            own,
        ))
    }) by {
        let keep = |c: DataColumnSidecar| c.block_root == blocks[i].root && custody.contains(c.index);
        positions::lemma_filter_picks(columns, keep);
        positions::lemma_same_picks(
            columns,
            |k: int| keep(columns[k]),
            is_custody_column_of(blocks, columns, custody, i),
            columns.filter(keep),
        );
        if !repeats_a_root(blocks, i) {
            assert(coupling::first_of_root(blocks, i));
        }
    }
}

/// With distinct block roots, a received column is coupled with a block exactly where it is of that
/// block and its index is in custody; it is coupled with the block at each position of the batch.
pub proof fn law_every_custody_column_is_coupled(
    blocks: Seq<SignedBeaconBlock>,
    columns: Seq<DataColumnSidecar>,
    custody: Seq<ColumnIndex>,
    i: int,
    column: DataColumnSidecar,
)
    requires
        distinct_block_roots(blocks),
        0 <= i < blocks.len(),
    ensures
        coupling::coupled_fulu(blocks, columns, custody)[i].data matches RpcBlockDataView::CustodyColumns {
            columns: own,
            custody_column_indices,
        } && (own.contains(column) <==> columns.contains(column) && column.block_root == blocks[i].root
            && custody.contains(column.index)),
{
    law_blocks_are_coupled_with_their_columns(blocks, columns, custody);
    let pick = is_custody_column_of(blocks, columns, custody, i);
    let coupled = coupling::coupled_fulu(blocks, columns, custody)[i];
    let own = coupled.data->CustodyColumns_columns;
    positions::lemma_picked_contains(columns, pick, own, column);
    if columns.contains(column) && pick_holds(blocks, custody, i, column) {
        let k = choose|k: int| 0 <= k < columns.len() && columns[k] == column;
        assert(pick(k));
    }
}

spec fn pick_holds(
    blocks: Seq<SignedBeaconBlock>,
    custody: Seq<ColumnIndex>,
    i: int,
    column: DataColumnSidecar,
) -> bool {
    column.block_root == blocks[i].root && custody.contains(column.index)
}

/// Coupling with blobs keeps every block in its place, under its root, and gives it the received
/// blobs of that root, all of them and in the order received. A block whose root was there before
/// gets none.
pub proof fn law_blocks_are_coupled_with_their_blobs(
    blocks: Seq<SignedBeaconBlock>,
    blobs: Seq<BlobSidecar>,
)
    ensures
        coupling::coupled_deneb(blocks, blobs).len() == blocks.len(),
        forall|i: int|
            0 <= i < blocks.len() ==> {
                let coupled = #[trigger] coupling::coupled_deneb(blocks, blobs)[i];
                &&& coupled.block == blocks[i]
                &&& coupled.block_root == Some(blocks[i].root)
                &&& coupled.data matches RpcBlockDataView::Blobs(own) && (repeats_a_root(blocks, i)
                    ==> own.len() == 0) && (!repeats_a_root(blocks, i) ==> positions::is_picked(
                    blobs,
                    is_blob_of(blocks, blobs, i),
                    own,
                ))
            },
{
    assert forall|i: int| 0 <= i < blocks.len() implies ({
        let coupled = #[trigger] coupling::coupled_deneb(blocks, blobs)[i];
        coupled.data matches RpcBlockDataView::Blobs(own) && (repeats_a_root(blocks, i) ==> own.len()
            == 0) && (!repeats_a_root(blocks, i) ==> positions::is_picked(
            blobs,
            is_blob_of(blocks, blobs, i),
            own,
        ))
    }) by {
        let keep = |b: BlobSidecar| b.block_root == blocks[i].root;
        positions::lemma_filter_picks(blobs, keep);
        positions::lemma_same_picks(
            blobs,
            |k: int| keep(blobs[k]),
            is_blob_of(blocks, blobs, i),
            blobs.filter(keep),
        );
        if !repeats_a_root(blocks, i) {
            assert(coupling::first_of_root(blocks, i));
        }
    }
}

/// Blobs are too many exactly where the blobs received for some block, at the first place of its
/// root, are more than a block of its epoch can have.
pub proof fn law_when_blobs_are_too_many(
    blocks: Seq<SignedBeaconBlock>,
    blobs: Seq<BlobSidecar>,
    spec: ChainSpec,
)
    ensures
        coupling::too_many_blobs(blocks, blobs, spec) <==> exists|i: int|
            0 <= i < blocks.len() && !repeats_a_root(blocks, i) && positions::picked_below(
                #[trigger] is_blob_of(blocks, blobs, i),
                blobs.len() as int,
            ) > spec.spec_max_blobs_per_block((blocks[i].slot / spec.slots_per_epoch)),
{
    law_blocks_are_coupled_with_their_blobs(blocks, blobs);
    assert forall|i: int| 0 <= i < blocks.len() implies (#[trigger] coupling::blobs_for(
        blocks,
        blobs,
        i,
    )).len() == (if repeats_a_root(blocks, i) {
        0
    } else {
        positions::picked_below(is_blob_of(blocks, blobs, i), blobs.len() as int)
    }) by {
        let coupled = coupling::coupled_deneb(blocks, blobs)[i];
        assert(coupled.data == RpcBlockDataView::Blobs(coupling::blobs_for(blocks, blobs, i)));
    }
    if coupling::too_many_blobs(blocks, blobs, spec) {
        let i = choose|i: int|
            0 <= i < blocks.len() && #[trigger] coupling::blobs_for(blocks, blobs, i).len()
                > spec.spec_max_blobs_per_block(spec.spec_epoch_of(blocks[i].slot));
        let pick = is_blob_of(blocks, blobs, i);
    }
    if exists|i: int|
        0 <= i < blocks.len() && !repeats_a_root(blocks, i) && positions::picked_below(
            #[trigger] is_blob_of(blocks, blobs, i),
            blobs.len() as int,
        ) > spec.spec_max_blobs_per_block((blocks[i].slot / spec.slots_per_epoch)) {
        let i = choose|i: int|
            0 <= i < blocks.len() && !repeats_a_root(blocks, i) && positions::picked_below(
                #[trigger] is_blob_of(blocks, blobs, i),
                blobs.len() as int,
            ) > spec.spec_max_blobs_per_block((blocks[i].slot / spec.slots_per_epoch));
        assert(coupling::blobs_for(blocks, blobs, i).len() > spec.spec_max_blobs_per_block(
            spec.spec_epoch_of(blocks[i].slot),
        ));
    }
}

/// Without data every block is kept in its place, with the number of columns that the node samples.
pub proof fn law_blocks_without_data_are_kept(
    blocks: Seq<SignedBeaconBlock>,
    custody_columns_count: usize,
)
    ensures
        coupling::coupled_base(blocks, custody_columns_count).len() == blocks.len(),
        forall|i: int|
            0 <= i < blocks.len() ==> {
                let coupled = #[trigger] coupling::coupled_base(blocks, custody_columns_count)[i];
                coupled.block == blocks[i] && coupled.block_root is None && (
                coupled.data matches RpcBlockDataView::NoData { custody_columns_count: count } && count
                    == custody_columns_count)
            },
{
}

/// The reason that is given is that of a block which no refused block comes before; none is given
/// only where no block is refused.
pub proof fn law_first_refusal_is_told(refusals: Seq<Option<String>>, n: nat)
    ensures
        coupling::first_refusal(refusals, n) is None <==> forall|i: int|
            0 <= i < n && i < refusals.len() ==> (#[trigger] refusals[i]) is None,
        coupling::first_refusal(refusals, n) matches Some(reason) ==> exists|i: int|
            0 <= i < n && i < refusals.len() && ((#[trigger] refusals[i]) matches Some(text) && text@
                == reason) && forall|j: int| 0 <= j < i ==> (#[trigger] refusals[j]) is None,
    decreases n,
{
    if n > 0 {
        law_first_refusal_is_told(refusals, (n - 1) as nat);
        match coupling::first_refusal(refusals, n) {
            Some(reason) => {
                if coupling::first_refusal(refusals, (n - 1) as nat) is None {
                    assert(refusals[n - 1] is Some);
                    assert(refusals[n - 1]->Some_0@ == reason);
                }
            },
            None => {
                assert forall|i: int| 0 <= i < n && i < refusals.len() implies (
                #[trigger] refusals[i]) is None by {}
            },
        }
    }
}

} // verus!
