use vstd::prelude::*;

use crate::config::{
    storable_destinations, sum_percentage, valid_destinations, FeeDestination, Handle, Router,
    MAX_DESTINATIONS, TOTAL_BASIS_POINTS,
};
use crate::errors::ErrorCode;
use crate::route::{compute_route, handles_match, spec_plan, Transfer};
use crate::validate::validate_destinations;

verus! {

/// The destination table stored for `owner`, or `None` when no router exists
/// for that owner. This is the logical content of the store: every contract
/// below speaks in terms of it.
pub open spec fn spec_get(s: Seq<Router>, owner: Handle) -> Option<Seq<FeeDestination>>
    decreases s.len(),
{
    if s.len() == 0 {
        None
    } else if s[0].owner == owner {
        Some(s[0].destinations@)
    } else {
        spec_get(s.drop_first(), owner)
    }
}

/// Durable keyed storage of routers: at most one per owner, each holding a
/// committed (validated, capacity-checked) destination table.
pub struct RouterStore {
    pub configs: Vec<Router>,
}

impl RouterStore {
    /// Well-formedness: owners are unique keys, and only committed tables are
    /// ever stored.
    pub open spec fn wf(self) -> bool {
        &&& forall|i: int, j: int|
            0 <= i < j < self.configs@.len() ==> (#[trigger] self.configs@[i]).owner != (
            #[trigger] self.configs@[j]).owner
        &&& forall|i: int|
            0 <= i < self.configs@.len() ==> storable_destinations(
                (#[trigger] self.configs@[i]).destinations@,
            )
    }

    /// The stored table for `owner`, if any.
    pub open spec fn get(self, owner: Handle) -> Option<Seq<FeeDestination>> {
        spec_get(self.configs@, owner)
    }

    /// An empty store: no owner has a router yet.
    pub fn new() -> (s: Self)
        ensures
            s.wf(),
            forall|o: Handle| #[trigger] s.get(o) is None,
    {
        RouterStore { configs: Vec::new() }
    }

    /// Finds the slot holding `owner`'s router, and relates it to the
    /// logical content [`spec_get`].
    fn find_index(&self, owner: Handle) -> (r: Option<usize>)
        ensures
            match r {
                Some(i) => {
                    &&& i < self.configs@.len()
                    &&& self.configs@[i as int].owner == owner
                    &&& forall|j: int| 0 <= j < i ==> self.configs@[j].owner != owner
                    &&& self.get(owner) == Some(self.configs@[i as int].destinations@)
                },
                None => {
                    &&& forall|j: int|
                        0 <= j < self.configs@.len() ==> self.configs@[j].owner != owner
                    &&& self.get(owner) is None
                },
            },
    {
        let n = self.configs.len();
        let mut i: usize = 0;
        while i < n
            invariant
                n == self.configs@.len(),
                i <= n,
                forall|j: int| 0 <= j < i ==> self.configs@[j].owner != owner,
            decreases n - i,
        {
            if self.configs[i].owner == owner {
                proof {
                    lemma_get_at_first_match(self.configs@, owner, i as int);
                }
                return Some(i);
            }
            i = i + 1;
        }
        proof {
            lemma_get_absent(self.configs@, owner);
        }
        None
    }

    /// Reads the configuration stored for `owner`; `NotFound` when absent.
    pub fn read(&self, owner: Handle) -> (r: Result<&Router, ErrorCode>)
        ensures
            match r {
                Ok(router) => self.get(owner) == Some(router.destinations@) && router.owner
                    == owner,
                Err(e) => e == ErrorCode::NotFound && self.get(owner) is None,
            },
    {
        match self.find_index(owner) {
            Some(i) => Ok(&self.configs[i]),
            None => Err(ErrorCode::NotFound),
        }
    }

    /// Creates a router for `owner`, committing `destinations` as its table.
    ///
    /// Fails with `AlreadyExists` when `owner` already has a router (records
    /// are addressed by owner, so a second create can never overwrite the
    /// first), then rejects the table exactly as the validator does, and
    /// finally with `CapacityExceeded` when the table outgrows the storage
    /// reserved per router. On any failure the store is left untouched.
    pub fn initialize_router(
        &mut self,
        owner: Handle,
        destinations: Vec<FeeDestination>,
    ) -> (r: Result<(), ErrorCode>)
        requires
            old(self).wf(),
        ensures
            final(self).wf(),
            r is Ok <==> (old(self).get(owner) is None && storable_destinations(destinations@)),
            r is Ok ==> final(self).get(owner) == Some(destinations@),
            r is Ok ==> forall|o: Handle|
                o != owner ==> #[trigger] final(self).get(o) == old(self).get(o),
            r is Err ==> *final(self) == *old(self),
            r == Err::<(), ErrorCode>(ErrorCode::AlreadyExists) <==> old(self).get(owner) is Some,
            r == Err::<(), ErrorCode>(ErrorCode::Empty) <==> (old(self).get(owner) is None
                && destinations@.len() == 0),
            r == Err::<(), ErrorCode>(ErrorCode::BadTotal) <==> (old(self).get(owner) is None
                && destinations@.len() > 0 && sum_percentage(destinations@)
                != TOTAL_BASIS_POINTS),
            r == Err::<(), ErrorCode>(ErrorCode::CapacityExceeded) <==> (old(self).get(owner)
                is None && valid_destinations(destinations@) && destinations@.len()
                > MAX_DESTINATIONS),
    {
        if self.find_index(owner).is_some() {
            return Err(ErrorCode::AlreadyExists);
        }
        if let Err(e) = validate_destinations(&destinations) {
            return Err(e);
        }
        if destinations.len() > MAX_DESTINATIONS {
            return Err(ErrorCode::CapacityExceeded);
        }

        let ghost s0 = self.configs@;
        let router = Router { owner, destinations };
        let ghost rr = router;
        self.configs.push(router);
        proof {
            assert forall|o: Handle| o != owner implies #[trigger] spec_get(s0.push(rr), o)
                == spec_get(s0, o) by {
                lemma_get_push(s0, rr, o);
            }
            lemma_get_push(s0, rr, owner);
            assert forall|i: int, j: int|
                0 <= i < j < self.configs@.len() implies (#[trigger] self.configs@[i]).owner != (
            #[trigger] self.configs@[j]).owner by {
                if j == s0.len() {
                    assert(self.configs@[j] == rr);
                    assert(s0[i].owner != owner);
                }
            }
        }
        Ok(())
    }

    /// Replaces `owner`'s destination table wholesale (never merged).
    ///
    /// Fails with `NotFound` when no router exists for `owner`, with
    /// `Unauthorized` when `caller` is not the stored owner, and otherwise
    /// rejects the candidate table exactly as create does. On any failure the
    /// store — in particular the previous table — is left untouched.
    pub fn update_destinations(
        &mut self,
        owner: Handle,
        caller: Handle,
        new_destinations: Vec<FeeDestination>,
    ) -> (r: Result<(), ErrorCode>)
        requires
            old(self).wf(),
        ensures
            final(self).wf(),
            r is Ok <==> (old(self).get(owner) is Some && caller == owner
                && storable_destinations(new_destinations@)),
            r is Ok ==> final(self).get(owner) == Some(new_destinations@),
            r is Ok ==> forall|o: Handle|
                o != owner ==> #[trigger] final(self).get(o) == old(self).get(o),
            r is Err ==> *final(self) == *old(self),
            r == Err::<(), ErrorCode>(ErrorCode::NotFound) <==> old(self).get(owner) is None,
            r == Err::<(), ErrorCode>(ErrorCode::Unauthorized) <==> (old(self).get(owner) is Some
                && caller != owner),
            r == Err::<(), ErrorCode>(ErrorCode::Empty) <==> (old(self).get(owner) is Some
                && caller == owner && new_destinations@.len() == 0),
            r == Err::<(), ErrorCode>(ErrorCode::BadTotal) <==> (old(self).get(owner) is Some
                && caller == owner && new_destinations@.len() > 0 && sum_percentage(
                new_destinations@,
            ) != TOTAL_BASIS_POINTS),
            r == Err::<(), ErrorCode>(ErrorCode::CapacityExceeded) <==> (old(self).get(owner)
                is Some && caller == owner && valid_destinations(new_destinations@)
                && new_destinations@.len() > MAX_DESTINATIONS),
    {
        let i = match self.find_index(owner) {
            Some(i) => i,
            None => {
                return Err(ErrorCode::NotFound);
            },
        };
        if caller != owner {
            return Err(ErrorCode::Unauthorized);
        }
        if let Err(e) = validate_destinations(&new_destinations) {
            return Err(e);
        }
        if new_destinations.len() > MAX_DESTINATIONS {
            return Err(ErrorCode::CapacityExceeded);
        }

        let ghost s0 = self.configs@;
        let router = Router { owner, destinations: new_destinations };
        let ghost rr = router;
        self.configs[i] = router;
        proof {
            assert(self.configs@ == s0.update(i as int, rr));
            assert forall|o: Handle| o != owner implies #[trigger] spec_get(
                s0.update(i as int, rr),
                o,
            ) == spec_get(s0, o) by {
                lemma_get_update(s0, i as int, rr, o);
            }
            lemma_get_update(s0, i as int, rr, owner);
            assert forall|a: int, b: int|
                0 <= a < b < self.configs@.len() implies (#[trigger] self.configs@[a]).owner != (
            #[trigger] self.configs@[b]).owner by {
                assert(s0[a].owner != s0[b].owner);
            }
        }
        Ok(())
    }

    /// Destroys `owner`'s router, releasing its storage back to the owner.
    ///
    /// Fails with `NotFound` when no router exists for `owner` and with
    /// `Unauthorized` when `caller` is not the stored owner; failure leaves
    /// the store untouched.
    pub fn close_router(&mut self, owner: Handle, caller: Handle) -> (r: Result<(), ErrorCode>)
        requires
            old(self).wf(),
        ensures
            final(self).wf(),
            r is Ok <==> (old(self).get(owner) is Some && caller == owner),
            r is Ok ==> final(self).get(owner) is None,
            r is Ok ==> forall|o: Handle|
                o != owner ==> #[trigger] final(self).get(o) == old(self).get(o),
            r is Err ==> *final(self) == *old(self),
            r == Err::<(), ErrorCode>(ErrorCode::NotFound) <==> old(self).get(owner) is None,
            r == Err::<(), ErrorCode>(ErrorCode::Unauthorized) <==> (old(self).get(owner) is Some
                && caller != owner),
    {
        let i = match self.find_index(owner) {
            Some(i) => i,
            None => {
                return Err(ErrorCode::NotFound);
            },
        };
        if caller != owner {
            return Err(ErrorCode::Unauthorized);
        }

        let ghost s0 = self.configs@;
        self.configs.remove(i);
        proof {
            assert forall|j: int|
                0 <= j < s0.len() && j != i implies s0[j].owner != s0[i as int].owner by {}
            assert forall|o: Handle| o != owner implies #[trigger] spec_get(
                s0.remove(i as int),
                o,
            ) == spec_get(s0, o) by {
                lemma_get_remove(s0, i as int, o);
            }
            lemma_get_remove(s0, i as int, owner);
            assert forall|a: int, b: int|
                0 <= a < b < self.configs@.len() implies (#[trigger] self.configs@[a]).owner != (
            #[trigger] self.configs@[b]).owner by {
                if a < i as int {
                    assert(self.configs@[a] == s0[a]);
                } else {
                    assert(self.configs@[a] == s0[a + 1]);
                }
                if b < i as int {
                    assert(self.configs@[b] == s0[b]);
                } else {
                    assert(self.configs@[b] == s0[b + 1]);
                }
            }
            assert forall|a: int|
                0 <= a < self.configs@.len() implies storable_destinations(
                (#[trigger] self.configs@[a]).destinations@,
            ) by {
                if a < i as int {
                    assert(self.configs@[a] == s0[a]);
                } else {
                    assert(self.configs@[a] == s0[a + 1]);
                }
            }
        }
        Ok(())
    }

    /// The routing operation: splits `amount` across `owner`'s stored table
    /// and returns the transfers the ledger must execute, one per stored
    /// destination with a positive floor share, in stored order.
    ///
    /// Fails with `NotFound` when `owner` has no router; otherwise exactly as
    /// the distributor [`compute_route`] does. The store itself is never
    /// changed by routing.
    pub fn route_sol_fees(
        &self,
        owner: Handle,
        amount: u64,
        sender: Handle,
        provided: &Vec<Handle>,
    ) -> (r: Result<Vec<Transfer>, ErrorCode>)
        requires
            self.wf(),
        ensures
            r == Err::<Vec<Transfer>, ErrorCode>(ErrorCode::NotFound) <==> self.get(owner)
                is None,
            self.get(owner) matches Some(dests) ==> {
                &&& (r is Ok <==> (provided@.len() >= dests.len() && handles_match(
                    provided@,
                    dests,
                )))
                &&& (r matches Ok(plan) ==> plan@ == spec_plan(sender, amount, dests))
                &&& (r == Err::<Vec<Transfer>, ErrorCode>(
                    ErrorCode::InsufficientDestinationAccounts,
                ) <==> provided@.len() < dests.len())
                &&& (r == Err::<Vec<Transfer>, ErrorCode>(ErrorCode::DestinationMismatch) <==> (
                provided@.len() >= dests.len() && !handles_match(provided@, dests)))
            },
    {
        let i = match self.find_index(owner) {
            Some(i) => i,
            None => {
                return Err(ErrorCode::NotFound);
            },
        };
        compute_route(&self.configs[i], amount, sender, provided)
    }
}

/// When slot `i` is the first slot keyed by `owner`, the logical content at
/// `owner` is exactly that slot's table.
proof fn lemma_get_at_first_match(s: Seq<Router>, owner: Handle, i: int)
    requires
        0 <= i < s.len(),
        s[i].owner == owner,
        forall|j: int| 0 <= j < i ==> s[j].owner != owner,
    ensures
        spec_get(s, owner) == Some(s[i].destinations@),
    decreases i,
{
    if i > 0 {
        lemma_get_at_first_match(s.drop_first(), owner, i - 1);
    }
}

/// When no slot is keyed by `owner`, the logical content at `owner` is absent.
proof fn lemma_get_absent(s: Seq<Router>, owner: Handle)
    requires
        forall|j: int| 0 <= j < s.len() ==> s[j].owner != owner,
    ensures
        spec_get(s, owner) is None,
    decreases s.len(),
{
    if s.len() > 0 {
        lemma_get_absent(s.drop_first(), owner);
    }
}

/// Appending a router keyed by a fresh owner binds that owner and leaves
/// every other owner's content unchanged.
proof fn lemma_get_push(s: Seq<Router>, r: Router, owner: Handle)
    ensures
        spec_get(s.push(r), owner) == (if spec_get(s, owner) is Some {
            spec_get(s, owner)
        } else if r.owner == owner {
            Some(r.destinations@)
        } else {
            None
        }),
    decreases s.len(),
{
    let t = s.push(r);
    if s.len() == 0 {
        assert(t[0] == r);
        if r.owner == owner {
            assert(spec_get(t, owner) == Some(r.destinations@));
        } else {
            assert(t.drop_first() =~= Seq::<Router>::empty());
            assert(spec_get(t, owner) == spec_get(t.drop_first(), owner));
            assert(spec_get(t.drop_first(), owner) is None);
        }
    } else {
        assert(t[0] == s[0]);
        assert(t.drop_first() =~= s.drop_first().push(r));
        lemma_get_push(s.drop_first(), r, owner);
        if s[0].owner == owner {
            assert(spec_get(s, owner) == Some(s[0].destinations@));
            assert(spec_get(t, owner) == Some(t[0].destinations@));
        } else {
            assert(spec_get(s, owner) == spec_get(s.drop_first(), owner));
            assert(spec_get(t, owner) == spec_get(t.drop_first(), owner));
            assert(spec_get(t.drop_first(), owner) == spec_get(s.drop_first().push(r), owner));
        }
    }
}

/// Overwriting the first slot keyed by some owner with a router for the same
/// owner rebinds that owner and leaves every other owner's content unchanged.
proof fn lemma_get_update(s: Seq<Router>, i: int, r: Router, owner: Handle)
    requires
        0 <= i < s.len(),
        r.owner == s[i].owner,
        forall|j: int| 0 <= j < i ==> s[j].owner != r.owner,
    ensures
        spec_get(s.update(i, r), owner) == (if owner == r.owner {
            Some(r.destinations@)
        } else {
            spec_get(s, owner)
        }),
    decreases i,
{
    if i == 0 {
        assert(s.update(i, r)[0] == r);
        if owner != r.owner {
            assert(s.update(i, r).drop_first() =~= s.drop_first());
        }
    } else {
        assert(s.update(i, r)[0] == s[0]);
        assert(s.update(i, r).drop_first() =~= s.drop_first().update(i - 1, r));
        lemma_get_update(s.drop_first(), i - 1, r, owner);
    }
}

/// Removing the only slot keyed by some owner unbinds that owner and leaves
/// every other owner's content unchanged.
proof fn lemma_get_remove(s: Seq<Router>, i: int, owner: Handle)
    requires
        0 <= i < s.len(),
        forall|j: int| 0 <= j < s.len() && j != i ==> s[j].owner != s[i].owner,
    ensures
        spec_get(s.remove(i), owner) == (if owner == s[i].owner {
            None::<Seq<FeeDestination>>
        } else {
            spec_get(s, owner)
        }),
    decreases i,
{
    if i == 0 {
        assert(s.remove(0) =~= s.drop_first());
        if owner == s[0].owner {
            assert(forall|j: int|
                0 <= j < s.drop_first().len() ==> s.drop_first()[j].owner != owner);
            lemma_get_absent(s.drop_first(), owner);
        }
    } else {
        assert(s.remove(i)[0] == s[0]);
        assert(s.remove(i).drop_first() =~= s.drop_first().remove(i - 1));
        lemma_get_remove(s.drop_first(), i - 1, owner);
    }
}

} // verus!
