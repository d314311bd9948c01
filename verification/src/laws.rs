//! The store's laws: what follows from the operation contracts, written
//! out and proved so a reader sees it stated rather than implied.

use vstd::prelude::*;

use crate::state::Repository;
use crate::store::Manager;
use crate::traits::{ManageTarget, Reposit};

verus! {

/// Inserting an entity under its label and then looking that label up
/// finds exactly that entity, for every kind and every label.
pub proof fn lemma_insert_then_get<T: ManageTarget>(
    before: Manager<T>,
    after: Manager<T>,
    one: T,
)
    requires
        after.contents() == before.contents().insert(one.label_view(), one),
    ensures
        after.contents().contains_key(one.label_view()),
        after.contents()[one.label_view()] == one,
{
}

/// Inserting two entities under the same label in sequence leaves only
/// the second reachable under that label: replacement, not
/// duplication, and the rest of the mapping is as if the first
/// insertion had never happened.
pub proof fn lemma_insert_twice_overwrites<T: ManageTarget>(
    start: Map<Seq<char>, T>,
    l: Seq<char>,
    first: T,
    second: T,
)
    ensures
        start.insert(l, first).insert(l, second)[l] == second,
        start.insert(l, first).insert(l, second) =~= start.insert(l, second),
{
}

/// After removing a label, looking it up reports absence; what the
/// removal handed back is exactly the entity stored just before; and
/// every other label still maps to what it mapped to before.
pub proof fn lemma_remove_then_absent<T: ManageTarget>(
    before: Manager<T>,
    after: Manager<T>,
    l: Seq<char>,
    taken: T,
)
    requires
        before.contents().contains_key(l),
        taken == before.contents()[l],
        after.contents() == before.contents().remove(l),
    ensures
        !after.contents().contains_key(l),
        forall|l2: Seq<char>| #[trigger]
            after.contents().contains_key(l2) <==> (before.contents().contains_key(l2) && l2 != l),
        forall|l2: Seq<char>| #[trigger]
            after.contents().contains_key(l2) ==> after.contents()[l2] == before.contents()[l2],
{
}

/// The mappings of different kinds are fully independent: however an
/// operation on the sprite mapping rewrites it, the text mapping is
/// left exactly as it was, and the other way round.  A label used for
/// a sprite and the same label used for a text therefore never
/// collide.
pub proof fn lemma_kinds_independent(
    r: Repository,
    sprites: Manager<crate::sprite::Sprite>,
    texts: Manager<crate::text::Text>,
)
    ensures
        (<Repository as Reposit<crate::sprite::Sprite>>::with_manager(r, sprites)).texts
            == r.texts,
        (<Repository as Reposit<crate::text::Text>>::with_manager(r, texts)).sprites == r.sprites,
{
}

/// After a full reset, a lookup of any label of any kind reports
/// absence: nothing previously stored is reachable.
pub proof fn lemma_reset_then_absent(r: Repository, l: Seq<char>)
    requires
        r.sprites.contents() == Map::<Seq<char>, crate::sprite::Sprite>::empty(),
        r.texts.contents() == Map::<Seq<char>, crate::text::Text>::empty(),
    ensures
        !r.sprites.contents().contains_key(l),
        !r.texts.contents().contains_key(l),
{
}

} // verus!
