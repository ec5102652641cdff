//! The page arena: allocates, reads and frees fixed-capacity byte pages by
//! integer id. A page stays readable from its allocation until its matching
//! free; an id handed out by `allocate` was never live before.

use vstd::prelude::*;

verus! {

/// Owns every page of one tree. Ids are indices into a monotonically
/// growing table; a freed slot keeps its index so ids are never reused.
pub struct PageStore {
    pages: Vec<Option<Vec<u8>>>,
}

impl View for PageStore {
    type V = Map<u64, Seq<u8>>;

    /// The live pages, by id.
    closed spec fn view(&self) -> Map<u64, Seq<u8>> {
        Map::new(
            |id: u64| (id as int) < self.pages@.len() && self.pages@[id as int] is Some,
            |id: u64| self.pages@[id as int]->0@,
        )
    }
}

impl PageStore {
    /// How many ids have ever been handed out. Every live id is below this
    /// bound, every id `allocate` returns equals the bound at the moment of
    /// the call, and the bound never decreases: so an allocated id was never
    /// previously live, and a freed id is never reused.
    pub closed spec fn issued(self) -> nat {
        self.pages@.len() as nat
    }

    /// Every live page id is below the issued bound, in every state of the
    /// arena.
    pub proof fn lemma_live_ids_bounded(s: PageStore)
        ensures
            forall|p: u64| #[trigger] s@.contains_key(p) ==> (p as nat) < s.issued(),
    {
    }

    /// An arena with no pages.
    pub fn new() -> (r: Self)
        ensures
            r@ == Map::<u64, Seq<u8>>::empty(),
            r.issued() == 0,
    {
        let r = PageStore { pages: Vec::new() };
        proof {
            assert(r@ =~= Map::<u64, Seq<u8>>::empty());
        }
        r
    }

    /// Stores new content and returns a fresh id never previously live: the
    /// id equals the issued bound before the call, every id that was ever
    /// live is below that bound, and the bound only grows.
    pub fn allocate(&mut self, bytes: Vec<u8>) -> (id: u64)
        ensures
            !old(self)@.contains_key(id),
            id as nat == old(self).issued(),
            final(self).issued() == old(self).issued() + 1,
            final(self)@ == old(self)@.insert(id, bytes@),
    {
        let id = self.pages.len() as u64;
        self.pages.push(Some(bytes));
        proof {
            assert(final(self)@ =~= old(self)@.insert(id, bytes@));
        }
        id
    }

    /// Reads a copy of page `id`, or nothing for an unknown or freed id.
    pub fn read(&self, id: u64) -> (r: Option<Vec<u8>>)
        ensures
            match r {
                Option::Some(v) => self@.contains_key(id) && v@ == self@[id],
                Option::None => !self@.contains_key(id),
            },
    {
        if id >= self.pages.len() as u64 {
            return None;
        }
        match &self.pages[id as usize] {
            Some(v) => {
                let c = v.clone();
                proof {
                    assert(c@ =~= self@[id]);
                }
                Some(c)
            },
            None => None,
        }
    }

    /// Releases page `id`; the issued bound stands, so the id is not reused.
    pub fn free(&mut self, id: u64)
        requires
            old(self)@.contains_key(id),
        ensures
            final(self)@ == old(self)@.remove(id),
            final(self).issued() == old(self).issued(),
    {
        proof {
            assert(old(self)@.dom().contains(id));
        }
        let n = self.pages.len();
        proof {
            assert((id as int) < n as int);
        }
        let idx = id as usize;
        self.pages.set(idx, None);
        proof {
            assert(self.pages@ == old(self).pages@.update(id as int, None::<Vec<u8>>));
            assert forall|p: u64| #[trigger] self@.dom().contains(p) == old(self)@.remove(
                id,
            ).dom().contains(p) by {
                if p != id && (p as int) < old(self).pages@.len() {
                    assert(self.pages@[p as int] == old(self).pages@[p as int]);
                }
            }
            assert(self@.dom() =~= old(self)@.remove(id).dom());
            assert(self@ =~= old(self)@.remove(id));
        }
    }
}

} // verus!
