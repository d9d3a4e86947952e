use vstd::prelude::*;
use crate::diff::{apply_ops, DiffOp, WorldDiff};
use crate::store::{StoreModel, World};

verus! {

pub open spec fn ops_of(ds: Seq<WorldDiff>) -> Seq<Seq<DiffOp>> {
    ds.map_values(|d: WorldDiff| d.ops@)
}

/// The local mirror of a remote store, and the diffs waiting to be sent upstream.
/// Inbound diffs are applied in arrival order; outbound ones leave in submission order.
pub struct RemoteSession {
    world: World,
    outbox: Vec<WorldDiff>,
}

impl RemoteSession {
    pub closed spec fn wf(&self) -> bool {
        self.world.wf()
    }

    pub closed spec fn mirror(&self) -> World {
        self.world
    }

    /// The operations of the diffs not yet taken for sending, oldest first.
    pub closed spec fn pending(&self) -> Seq<Seq<DiffOp>> {
        ops_of(self.outbox@)
    }

    pub fn new() -> (s: RemoteSession)
        ensures
            s.wf(),
            s.mirror()@ == StoreModel::empty(),
            s.pending() == Seq::<Seq<DiffOp>>::empty(),
    {
        let s = RemoteSession { world: World::new(), outbox: Vec::new() };
        assert(ops_of(s.outbox@) =~= Seq::<Seq<DiffOp>>::empty());
        s
    }

    /// The mirrored store, for reads and polls.
    pub fn world(&self) -> (w: &World)
        requires
            self.wf(),
        ensures
            *w == self.mirror(),
            w.wf(),
    {
        &self.world
    }

    /// Applies a diff that arrived from the authority.
    pub fn receive(&mut self, diff: &WorldDiff)
        requires
            old(self).wf(),
        ensures
            final(self).wf(),
            final(self).mirror()@ == apply_ops(old(self).mirror()@, diff.ops@),
            final(self).pending() == old(self).pending(),
    {
        self.world.apply_diff(diff);
    }

    /// Queues a mutation for the authority. The mirror is left as it is: the change shows
    /// only once the authority sends it back.
    pub fn submit(&mut self, diff: WorldDiff)
        requires
            old(self).wf(),
        ensures
            final(self).wf(),
            final(self).mirror() == old(self).mirror(),
            final(self).pending() == old(self).pending().push(diff.ops@),
    {
        let ghost ops = diff.ops@;
        self.outbox.push(diff);
        assert(ops_of(self.outbox@) =~= ops_of(old(self).outbox@).push(ops));
    }

    /// Takes every queued diff, oldest first, for sending.
    pub fn take_outbox(&mut self) -> (r: Vec<WorldDiff>)
        requires
            old(self).wf(),
        ensures
            final(self).wf(),
            final(self).mirror() == old(self).mirror(),
            ops_of(r@) == old(self).pending(),
            final(self).pending() == Seq::<Seq<DiffOp>>::empty(),
    {
        let mut r: Vec<WorldDiff> = Vec::new();
        std::mem::swap(&mut r, &mut self.outbox);
        assert(ops_of(self.outbox@) =~= Seq::<Seq<DiffOp>>::empty());
        r
    }
}

} // verus!
