//! What an upload decides before the first chunk is paid for: whether the wallet can pay at
//! all, and whether chunks that an earlier run stored have to be checked against the network.

use crate::address::Address;
use crate::chunks::{addresses_of, ChunkManager, ChunkRef};
use crate::error::UploadError;
use vstd::prelude::*;

verus! {

/// Refuses an upload from a wallet that holds nothing.
pub fn check_wallet(balance: u64) -> (checked: Result<(), UploadError>)
    ensures
        balance == 0 ==> checked == Err::<(), UploadError>(UploadError::WalletEmpty),
        balance != 0 ==> checked is Ok,
{
    if balance == 0 {
        Err(UploadError::WalletEmpty)
    } else {
        Ok(())
    }
}

/// How an upload begins.
#[derive(Clone, Debug, PartialEq, Eq)]
pub enum Preparation {
    /// Chunks are pending: they are uploaded, and the network is not asked first.
    Upload,
    /// Nothing is pending: the network is asked which of these chunks, all that are known,
    /// it does not hold.
    Verify(Vec<ChunkRef>),
}

/// Decides how an upload begins: the network is asked about the chunks of an earlier run
/// exactly when none is pending.
pub fn prepare(manager: &ChunkManager) -> (preparation: Preparation)
    requires
        manager@.wf(),
    ensures
        match preparation {
            Preparation::Upload => manager@.pending().len() > 0,
            Preparation::Verify(chunks) => manager@.pending().len() == 0 && chunks@
                == manager@.chunks,
        },
{
    if manager.is_chunks_empty() {
        Preparation::Verify(manager.already_put_chunks())
    } else {
        Preparation::Upload
    }
}

/// What the network's answer means for the upload.
#[derive(Clone, Copy, Debug, PartialEq, Eq)]
pub enum Verdict {
    /// The network holds every chunk: nothing is left to do.
    AllStored,
    /// The network lacks this many of the chunks it was asked about. They are pending again.
    Reupload(usize),
}

/// Takes in the chunks that the network was found not to hold: they are pending again, and
/// the others stay as they are.
pub fn reconcile(manager: &mut ChunkManager, failed: &Vec<ChunkRef>) -> (verdict: Verdict)
    requires
        old(manager)@.wf(),
    ensures
        final(manager)@.wf(),
        final(manager)@ == old(manager)@.reopen(addresses_of(failed@).to_set()),
        verdict == if failed@.len() == 0 {
            Verdict::AllStored
        } else {
            Verdict::Reupload(failed@.len() as usize)
        },
{
    let mut addresses: Vec<Address> = Vec::new();
    let mut i: usize = 0;
    while i < failed.len()
        invariant
            i <= failed@.len(),
            addresses@ == addresses_of(failed@.take(i as int)),
        decreases failed@.len() - i,
    {
        addresses.push(failed[i].address);
        assert(addresses@ =~= addresses_of(failed@.take(i as int + 1)));
        i = i + 1;
    }
    assert(failed@.take(i as int) =~= failed@);
    manager.reopen(&addresses);
    if failed.len() == 0 {
        Verdict::AllStored
    } else {
        Verdict::Reupload(failed.len())
    }
}

/// An answer of the network that names no chunk leaves nothing pending where nothing was.
pub proof fn lemma_nothing_failed(manager: crate::chunks::ChunkManagerView)
    ensures
        manager.reopen(Set::empty()) == manager,
{
    assert(manager.reopen(Set::empty()).completed =~= manager.completed);
}

/// Where nothing was pending, exactly the chunks that the network was found not to hold are
/// pending afterwards: an upload that follows stores these and no others.
pub proof fn lemma_reopened_are_pending(
    manager: crate::chunks::ChunkManagerView,
    failed: Set<Address>,
    chunk: ChunkRef,
)
    requires
        manager.pending().len() == 0,
    ensures
        manager.reopen(failed).pending().contains(chunk) <==> manager.chunks.contains(chunk)
            && failed.contains(chunk.address),
{
    manager.lemma_pending_is_the_rest(chunk);
    manager.reopen(failed).lemma_pending_is_the_rest(chunk);
    if manager.chunks.contains(chunk) && !manager.completed.contains(chunk.address) {
        let k = choose|k: int| 0 <= k < manager.pending().len() && manager.pending()[k] == chunk;
    }
}

} // verus!
