//! Access control by peer.

use vstd::prelude::*;

use crate::collections::KeySet;
use crate::peer::PeerId;

verus! {

/// The peers that are let in.
pub struct Acl {
    allowed: KeySet<PeerId>,
}

impl View for Acl {
    type V = Set<Seq<u8>>;

    closed spec fn view(&self) -> Set<Seq<u8>> {
        self.allowed@.to_set()
    }
}

impl Default for Acl {
    /// Nobody is let in.
    fn default() -> (acl: Self)
        ensures
            acl.wf(),
            acl@ == Set::<Seq<u8>>::empty(),
    {
        let acl: Acl = Acl { allowed: KeySet::new() };
        assert(acl@ =~= Set::<Seq<u8>>::empty());
        acl
    }
}

impl Acl {
    /// No peer is recorded twice.
    pub closed spec fn wf(&self) -> bool {
        self.allowed.wf()
    }

    /// Nobody is let in.
    pub fn new() -> (acl: Acl)
        ensures
            acl.wf(),
            acl@ == Set::<Seq<u8>>::empty(),
    {
        Acl::default()
    }

    /// Lets a peer in.
    pub fn allow(&mut self, pid: PeerId)
        requires
            old(self).wf(),
        ensures
            final(self).wf(),
            final(self)@ == old(self)@.insert(pid@),
    {
        let ghost v: Seq<u8> = pid@;
        let ghost was: Seq<Seq<u8>> = self.allowed@;
        let added: bool = self.allowed.insert(pid);
        proof {
            let now: Seq<Seq<u8>> = self.allowed@;
            assert forall|p: Seq<u8>| #[trigger]
                self@.contains(p) <==> old(self)@.insert(v).contains(p) by {
                if added {
                    if now.contains(p) {
                        let i: int = choose|i: int| 0 <= i < now.len() && now[i] == p;
                        if i < was.len() {
                            assert(was[i] == p);
                        }
                    }
                    if was.contains(p) {
                        let i: int = choose|i: int| 0 <= i < was.len() && was[i] == p;
                        assert(now[i] == p);
                    }
                    assert(now[was.len() as int] == v);
                }
            }
            assert(self@ =~= old(self)@.insert(v));
        }
    }

    /// Lets a peer in no longer.
    pub fn revoke(&mut self, pid: &PeerId)
        requires
            old(self).wf(),
        ensures
            final(self).wf(),
            final(self)@ == old(self)@.remove(pid@),
    {
        let ghost was: Seq<Seq<u8>> = self.allowed@;
        let _ = self.allowed.remove(pid);
        proof {
            let now: Seq<Seq<u8>> = self.allowed@;
            was.index_of_first_ensures(pid@);
            assert forall|p: Seq<u8>| #[trigger]
                self@.contains(p) <==> old(self)@.remove(pid@).contains(p) by {
                if was.contains(pid@) {
                    let at: int = was.index_of_first(pid@)->0;
                    if now.contains(p) {
                        let i: int = choose|i: int| 0 <= i < now.len() && now[i] == p;
                        let j: int = if i < at {
                            i
                        } else {
                            i + 1
                        };
                        assert(was[j] == p);
                        assert(was[j] != was[at]);
                    }
                    if was.contains(p) && p != pid@ {
                        let j: int = choose|j: int| 0 <= j < was.len() && was[j] == p;
                        let i: int = if j < at {
                            j
                        } else {
                            j - 1
                        };
                        assert(now[i] == p);
                    }
                }
            }
            assert(self@ =~= old(self)@.remove(pid@));
        }
    }

    /// Whether a peer is let in.
    pub fn is_allowed(&self, pid: &PeerId) -> (r: bool)
        ensures
            r == self@.contains(pid@),
    {
        self.allowed.contains(pid)
    }
}

/// The last word on a peer counts: letting it in lets it in, taking that back shuts it out, and
/// neither changes anything for another peer.
pub proof fn last_word_counts(acl: Set<Seq<u8>>, peer: Seq<u8>, other: Seq<u8>)
    ensures
        acl.insert(peer).contains(peer),
        !acl.remove(peer).contains(peer),
        !acl.insert(peer).remove(peer).contains(peer),
        acl.remove(peer).insert(peer).contains(peer),
        other != peer ==> acl.insert(peer).contains(other) == acl.contains(other),
        other != peer ==> acl.remove(peer).contains(other) == acl.contains(other),
{
}

} // verus!
