//! The activation tracker: operators are marked runnable by address path, and
//! the scheduler asks for all activations extending a prefix, removing them.

use vstd::prelude::*;

verus! {

/// The paths of a list of path buffers.
pub open spec fn dv(v: Seq<Vec<usize>>) -> Seq<Seq<usize>> {
    v.map_values(|p: Vec<usize>| p@)
}

/// Whether `path` strictly extends `prefix`.
pub open spec fn is_ext(path: Seq<usize>, prefix: Seq<usize>) -> bool {
    path.len() > prefix.len() && path.subrange(0, prefix.len() as int) == prefix
}

/// The next path element of each activation extending `prefix`, in order.
pub open spec fn extensions_of(paths: Seq<Seq<usize>>, prefix: Seq<usize>) -> Seq<usize>
    decreases paths.len(),
{
    if paths.len() == 0 {
        Seq::<usize>::empty()
    } else {
        let rest = extensions_of(paths.skip(1), prefix);
        if is_ext(paths[0], prefix) {
            seq![paths[0][prefix.len() as int]] + rest
        } else {
            rest
        }
    }
}

/// The activations that do not extend `prefix`, in order.
pub open spec fn non_extensions(paths: Seq<Seq<usize>>, prefix: Seq<usize>) -> Seq<Seq<usize>>
    decreases paths.len(),
{
    if paths.len() == 0 {
        Seq::<Seq<usize>>::empty()
    } else {
        let rest = non_extensions(paths.skip(1), prefix);
        if is_ext(paths[0], prefix) {
            rest
        } else {
            seq![paths[0]] + rest
        }
    }
}

/// Runnable operators, named by address path. Newly activated paths wait in
/// `pending` until `advance` promotes them into the current epoch.
pub struct Activations {
    /// Paths runnable in the current epoch.
    pub current: Vec<Vec<usize>>,
    /// Paths activated since the last `advance`.
    pub pending: Vec<Vec<usize>>,
}

impl Activations {
    /// An empty tracker.
    pub fn new() -> (r: Activations)
        ensures
            dv(r.current@) =~= Seq::<Seq<usize>>::empty(),
            dv(r.pending@) =~= Seq::<Seq<usize>>::empty(),
    {
        Activations { current: Vec::new(), pending: Vec::new() }
    }

    /// Mark the operator rooted at `path` runnable (from the next `advance`).
    pub fn activate(&mut self, path: Vec<usize>)
        ensures
            final(self).current@ == old(self).current@,
            dv(final(self).pending@) =~= dv(old(self).pending@).push(path@),
    {
        let ghost pview = path@;
        self.pending.push(path);
        proof {
            assert(dv(self.pending@) =~= dv(old(self).pending@).push(pview));
        }
    }

    /// Promote the pending activations into the current epoch, in order.
    #[verifier::loop_isolation(false)]
    pub fn advance(&mut self)
        ensures
            dv(final(self).current@) =~= dv(old(self).current@) + dv(old(self).pending@),
            final(self).pending@.len() == 0,
    {
        loop
            invariant
                dv(self.current@) + dv(self.pending@) =~= dv(old(self).current@) + dv(
                    old(self).pending@,
                ),
            decreases self.pending@.len(),
        {
            if self.pending.len() == 0 {
                proof {
                    assert(dv(self.pending@) =~= Seq::<Seq<usize>>::empty());
                    assert(dv(self.current@) =~= dv(self.current@) + dv(self.pending@));
                }
                return ;
            }
            let ghost cur0 = dv(self.current@);
            let ghost pen0 = dv(self.pending@);
            let p = self.pending.remove(0);
            self.current.push(p);
            proof {
                assert(dv(self.current@) =~= cur0.push(pen0[0]));
                assert(dv(self.pending@) =~= pen0.skip(1));
                assert(cur0.push(pen0[0]) + pen0.skip(1) =~= cur0 + pen0);
            }
        }
    }

    /// Whether no activation is waiting, current or pending.
    pub fn is_empty(&self) -> (r: bool)
        ensures
            r == (self.current@.len() == 0 && self.pending@.len() == 0),
    {
        self.current.len() == 0 && self.pending.len() == 0
    }

    /// Take every current activation extending `prefix`, returning the next
    /// path element of each in order; activations not extending `prefix` stay.
    #[verifier::loop_isolation(false)]
    pub fn for_extensions(&mut self, prefix: &Vec<usize>) -> (r: Vec<usize>)
        ensures
            r@ =~= extensions_of(dv(old(self).current@), prefix@),
            dv(final(self).current@) =~= non_extensions(dv(old(self).current@), prefix@),
            final(self).pending@ == old(self).pending@,
    {
        let ghost all = dv(self.current@);
        let mut kept: Vec<Vec<usize>> = Vec::new();
        let mut r: Vec<usize> = Vec::new();
        loop
            invariant
                self.pending@ == old(self).pending@,
                all == dv(old(self).current@),
                extensions_of(all, prefix@) =~= r@ + extensions_of(dv(self.current@), prefix@),
                non_extensions(all, prefix@) =~= dv(kept@) + non_extensions(
                    dv(self.current@),
                    prefix@,
                ),
            decreases self.current@.len(),
        {
            if self.current.len() == 0 {
                proof {
                    assert(dv(self.current@) =~= Seq::<Seq<usize>>::empty());
                    assert(r@ + extensions_of(dv(self.current@), prefix@) =~= r@);
                    assert(dv(kept@) + non_extensions(dv(self.current@), prefix@) =~= dv(kept@));
                }
                self.current = kept;
                return r;
            }
            let ghost rem0 = dv(self.current@);
            let p = self.current.remove(0);
            proof {
                assert(p@ == rem0[0]);
                assert(dv(self.current@) =~= rem0.skip(1));
            }
            let matches_prefix = p.len() > prefix.len() && starts_with(&p, prefix);
            proof {
                assert(matches_prefix == is_ext(rem0[0], prefix@));
            }
            if matches_prefix {
                let e = p[prefix.len()];
                r.push(e);
                proof {
                    assert(extensions_of(rem0, prefix@) =~= seq![rem0[0][prefix@.len() as int]]
                        + extensions_of(rem0.skip(1), prefix@));
                    assert(non_extensions(rem0, prefix@) =~= non_extensions(
                        rem0.skip(1),
                        prefix@,
                    ));
                }
            } else {
                let ghost kept0 = dv(kept@);
                kept.push(p);
                proof {
                    assert(dv(kept@) =~= kept0.push(rem0[0]));
                    assert(non_extensions(rem0, prefix@) =~= seq![rem0[0]] + non_extensions(
                        rem0.skip(1),
                        prefix@,
                    ));
                    assert(kept0.push(rem0[0]) + non_extensions(rem0.skip(1), prefix@) =~= kept0 + (
                    seq![rem0[0]] + non_extensions(rem0.skip(1), prefix@)));
                }
            }
        }
    }
}

/// Whether `p` begins with the elements of `prefix`.
#[verifier::loop_isolation(false)]
pub fn starts_with(p: &Vec<usize>, prefix: &Vec<usize>) -> (r: bool)
    requires
        prefix@.len() <= p@.len(),
    ensures
        r == (p@.subrange(0, prefix@.len() as int) == prefix@),
{
    let n = prefix.len();
    let mut k: usize = 0;
    while k < n
        invariant
            k <= n,
            forall|j: int| 0 <= j < k ==> p@[j] == prefix@[j],
        decreases n - k,
    {
        if p[k] != prefix[k] {
            proof {
                assert(p@.subrange(0, n as int)[k as int] == p@[k as int]);
            }
            return false;
        }
        k = k + 1;
    }
    proof {
        assert(p@.subrange(0, n as int) =~= prefix@);
    }
    true
}

} // verus!
