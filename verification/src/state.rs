//! The multi-kind repository and the frame state container that pairs
//! it with the user's own payload.

use vstd::prelude::*;

use crate::sprite::Sprite;
use crate::store::Manager;
use crate::text::Text;
use crate::traits::{Manage, ManageTarget, Reposit};

verus! {

/// The multi-kind, label-keyed entity store: one mapping per storable
/// kind, held side by side and fully independent of each other.
pub struct Repository {
    /// The state of all sprites this frame.
    pub sprites: Manager<Sprite>,
    /// The state of all texts this frame.
    pub texts: Manager<Text>,
}

impl Repository {
    /// Both mappings are well formed.
    pub open spec fn wf(&self) -> bool {
        self.sprites.wf() && self.texts.wf()
    }

    /// A repository with every mapping empty.
    pub fn new() -> (r: Self)
        ensures
            r.wf(),
            r.sprites.contents() == Map::<Seq<char>, Sprite>::empty(),
            r.texts.contents() == Map::<Seq<char>, Text>::empty(),
    {
        Repository { sprites: Manager::new(), texts: Manager::new() }
    }

    /// Remove every entity of every kind, restoring the empty state.
    pub fn reset(&mut self)
        ensures
            final(self).wf(),
            final(self).sprites.contents() =~= Map::<Seq<char>, Sprite>::empty(),
            final(self).texts.contents() =~= Map::<Seq<char>, Text>::empty(),
    {
        *self = Self::default();
    }
}

impl Default for Repository {
    /// A repository with every mapping empty.
    fn default() -> (r: Self)
        ensures
            r.wf(),
            r.sprites.contents() == Map::<Seq<char>, Sprite>::empty(),
            r.texts.contents() == Map::<Seq<char>, Text>::empty(),
    {
        Repository::new()
    }
}

impl Reposit<Sprite> for Repository {
    open spec fn manager_spec(&self) -> Manager<Sprite> {
        self.sprites
    }

    open spec fn with_manager(self, m: Manager<Sprite>) -> Self {
        Repository { sprites: m, ..self }
    }

    open spec fn inv(&self) -> bool {
        self.wf()
    }

    proof fn with_manager_facts(s: Self, m: Manager<Sprite>) {
    }

    proof fn manager_id(s: Self) {
    }

    fn manager(&self) -> (r: &Manager<Sprite>) {
        &self.sprites
    }

    fn manager_mut(&mut self) -> (r: &mut Manager<Sprite>) {
        &mut self.sprites
    }
}

impl Reposit<Text> for Repository {
    open spec fn manager_spec(&self) -> Manager<Text> {
        self.texts
    }

    open spec fn with_manager(self, m: Manager<Text>) -> Self {
        Repository { texts: m, ..self }
    }

    open spec fn inv(&self) -> bool {
        self.wf()
    }

    proof fn with_manager_facts(s: Self, m: Manager<Text>) {
    }

    proof fn manager_id(s: Self) {
    }

    fn manager(&self) -> (r: &Manager<Text>) {
        &self.texts
    }

    fn manager_mut(&mut self) -> (r: &mut Manager<Text>) {
        &mut self.texts
    }
}

impl Manage for Repository {

}

/// The value threaded through every logic stage of a frame: an
/// arbitrary user-defined payload paired with exactly one repository.
pub struct State<S> {
    /// The user-defined game state.
    pub main: S,
    /// The entity repository.
    pub repo: Repository,
}

impl<S> State<S> {
    /// Pair the user's initial payload with an empty repository.
    pub fn new(main: S) -> (r: Self)
        ensures
            r.main == main,
            r.repo.wf(),
            r.repo.sprites.contents() == Map::<Seq<char>, Sprite>::empty(),
            r.repo.texts.contents() == Map::<Seq<char>, Text>::empty(),
    {
        State { main, repo: Repository::default() }
    }
}

} // verus!
