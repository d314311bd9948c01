//! The three contracts the store is built on: what an entity kind must
//! offer, how a repository points at the mapping of one kind, and the
//! uniform operation surface written once over both.

use vstd::prelude::*;

use crate::store::{distinct_seqs, label_among, labels_view, Manager};

verus! {

/// The minimal contract a storable entity kind must satisfy: it can be
/// built from a label plus a kind-specific creation parameter, and it
/// exposes that label so the store can key it.
pub trait ManageTarget: Sized {
    /// The label under which the entity asks to be keyed.
    spec fn label_view(&self) -> Seq<char>;

    /// Build an entity keyed by `label`; `path` is a kind-specific
    /// creation parameter the store never looks at.
    fn new(label: &str, path: &str) -> (r: Self)
        ensures
            r.label_view() == label@,
    ;

    /// The entity's label.
    fn label(&self) -> (r: &str)
        ensures
            r@ == self.label_view(),
    ;
}

/// Declares that one kind `T` may be stored here, by pointing at the
/// manager that holds that kind's mapping.  The repository needs one
/// such declaration per kind and nothing else.
pub trait Reposit<T: ManageTarget>: Sized {
    /// The manager holding this kind's mapping.
    spec fn manager_spec(&self) -> Manager<T>;

    /// `self` with this kind's manager replaced.
    spec fn with_manager(self, m: Manager<T>) -> Self;

    /// Every mapping of the repository is well formed; managers of
    /// other kinds are untouched by operations on this one.
    spec fn inv(&self) -> bool;

    /// Swapping a well-formed manager in keeps the rest of the
    /// repository as it was, and the new manager is the one seen.
    proof fn with_manager_facts(s: Self, m: Manager<T>)
        requires
            s.inv(),
            m.wf(),
        ensures
            s.with_manager(m).manager_spec() == m,
            s.with_manager(m).inv(),
    ;

    /// Putting a repository's own manager back changes nothing.
    proof fn manager_id(s: Self)
        ensures
            s.with_manager(s.manager_spec()) == s,
    ;

    fn manager(&self) -> (r: &Manager<T>)
        ensures
            *r == self.manager_spec(),
    ;

    fn manager_mut(&mut self) -> (r: &mut Manager<T>)
        ensures
            *r == old(self).manager_spec(),
            *final(self) == old(self).with_manager(*final(r)),
    ;
}

/// The uniform query and mutation surface over every storable kind,
/// written once against `Reposit` and inherited by the repository.
pub trait Manage {
    /// References to every stored entity of kind `T`, in storage order.
    fn iter<T: ManageTarget>(&self) -> (out: Vec<&T>) where Self: Reposit<T>
        requires
            self.inv(),
            self.manager_spec().wf(),
        ensures
            out@.len() == self.manager_spec().len_spec(),
            forall|p: int|
                #![trigger out@[p]]
                0 <= p < out@.len() ==> *out@[p] == self.manager_spec().vals_view()[p],
    {
        self.manager().iter()
    }

    /// Mutable references to every stored entity of kind `T`, in
    /// storage order.
    fn iter_mut<T: ManageTarget>(&mut self) -> (out: Vec<&mut T>) where Self: Reposit<T>
        requires
            old(self).inv(),
            old(self).manager_spec().wf(),
        ensures
            final(self).inv(),
            final(self).manager_spec().wf(),
            *final(self) == old(self).with_manager(final(self).manager_spec()),
            final(self).manager_spec().keys_view() == old(self).manager_spec().keys_view(),
            final(self).manager_spec().len_spec() == old(self).manager_spec().len_spec(),
            out@.len() == old(self).manager_spec().len_spec(),
            forall|p: int|
                #![trigger out@[p]]
                0 <= p < out@.len() ==> *out@[p] == old(self).manager_spec().vals_view()[p]
                    && final(self).manager_spec().vals_view()[p] == *final(out@[p]),
    {
        let m = self.manager_mut();
        proof {
            assert forall|mm: Manager<T>| mm.wf() implies (#[trigger] old(self).with_manager(
                mm,
            )).manager_spec() == mm && old(self).with_manager(mm).inv() by {
                Self::with_manager_facts(*old(self), mm);
            }
            Self::manager_id(*old(self));
        }
        let out = m.iter_mut();
        out
    }

    /// Remove every entity of kind `T`.
    fn clear<T: ManageTarget>(&mut self) where Self: Reposit<T>
        requires
            old(self).inv(),
        ensures
            final(self).inv(),
            final(self).manager_spec().wf(),
            *final(self) == old(self).with_manager(final(self).manager_spec()),
            final(self).manager_spec().contents() =~= Map::<Seq<char>, T>::empty(),
    {
        let m = self.manager_mut();
        m.clear();
        proof {
            Self::with_manager_facts(*old(self), *final(m));
        }
    }

    /// Disjoint mutable references to the kind-`T` entities stored
    /// under the requested labels, in request order; `None`, and no
    /// change of the mapping, when a label repeats or is absent.
    fn get<T: ManageTarget>(&mut self, labels: &[&str]) -> (r: Option<Vec<&mut T>>) where
        Self: Reposit<T>,

        requires
            old(self).inv(),
            old(self).manager_spec().wf(),
        ensures
            final(self).inv(),
            final(self).manager_spec().wf(),
            *final(self) == old(self).with_manager(final(self).manager_spec()),
            match r {
                Some(out) => {
                    &&& distinct_seqs(labels_view(labels@))
                    &&& forall|k: int|
                        0 <= k < labels@.len() ==> old(self).manager_spec().contents().contains_key(
                            #[trigger] labels@[k]@,
                        )
                    &&& out@.len() == labels@.len()
                    &&& forall|k: int|
                        #![trigger out@[k]]
                        0 <= k < out@.len() ==> *out@[k] == old(
                            self,
                        ).manager_spec().contents()[labels@[k]@]
                    &&& forall|l: Seq<char>|
                        #![trigger final(self).manager_spec().contents().contains_key(l)]
                        #![trigger old(self).manager_spec().contents().contains_key(l)]
                        final(self).manager_spec().contents().contains_key(l) == old(
                            self,
                        ).manager_spec().contents().contains_key(l)
                    &&& forall|k: int|
                        #![trigger out@[k]]
                        0 <= k < out@.len() ==> final(self).manager_spec().contents()[labels@[k]@]
                            == *final(out@[k])
                    &&& forall|l: Seq<char>|
                        #![trigger old(self).manager_spec().contents()[l]]
                        #![trigger final(self).manager_spec().contents()[l]]
                        old(self).manager_spec().contents().contains_key(l) && !labels_view(
                            labels@,
                        ).contains(l) ==> final(self).manager_spec().contents()[l] == old(
                            self,
                        ).manager_spec().contents()[l]
                },
                None => {
                    &&& !(distinct_seqs(labels_view(labels@)) && forall|k: int|
                        0 <= k < labels@.len() ==> old(self).manager_spec().contents().contains_key(
                            #[trigger] labels@[k]@,
                        ))
                    &&& final(self).manager_spec().contents() =~= old(
                        self,
                    ).manager_spec().contents()
                },
            },
    {
        let m = self.manager_mut();
        proof {
            assert forall|mm: Manager<T>| mm.wf() implies (#[trigger] old(self).with_manager(
                mm,
            )).manager_spec() == mm && old(self).with_manager(mm).inv() by {
                Self::with_manager_facts(*old(self), mm);
            }
            Self::manager_id(*old(self));
        }
        let out = m.get(labels);
        out
    }

    /// A reference to the kind-`T` entity stored under `label`;
    /// absence is an explicit `None`, never a fault.
    fn get_one<T: ManageTarget>(&self, label: &str) -> (r: Option<&T>) where Self: Reposit<T>
        requires
            self.inv(),
            self.manager_spec().wf(),
        ensures
            match r {
                Some(e) => self.manager_spec().contents().contains_key(label@) && *e
                    == self.manager_spec().contents()[label@],
                None => !self.manager_spec().contents().contains_key(label@),
            },
    {
        self.manager().get_one(label)
    }

    /// A mutable reference to the kind-`T` entity stored under `label`;
    /// the mapping afterwards holds whatever the caller leaves behind
    /// the reference.
    fn get_one_mut<T: ManageTarget>(&mut self, label: &str) -> (r: Option<&mut T>) where
        Self: Reposit<T>,

        requires
            old(self).inv(),
            old(self).manager_spec().wf(),
        ensures
            final(self).inv(),
            final(self).manager_spec().wf(),
            *final(self) == old(self).with_manager(final(self).manager_spec()),
            match r {
                Some(e) => old(self).manager_spec().contents().contains_key(label@) && *e == old(
                    self,
                ).manager_spec().contents()[label@] && final(self).manager_spec().contents() =~= old(
                    self,
                ).manager_spec().contents().insert(label@, *final(e)),
                None => !old(self).manager_spec().contents().contains_key(label@) && *final(self)
                    == *old(self),
            },
    {
        let m = self.manager_mut();
        proof {
            assert forall|mm: Manager<T>| mm.wf() implies (#[trigger] old(self).with_manager(
                mm,
            )).manager_spec() == mm && old(self).with_manager(mm).inv() by {
                Self::with_manager_facts(*old(self), mm);
            }
            Self::manager_id(*old(self));
        }
        let out = m.get_one_mut(label);
        out
    }

    /// Remove the kind-`T` entity stored under `label` and hand it to
    /// the caller; absence is an explicit `None`, never a fault.
    fn remove<T: ManageTarget>(&mut self, label: &str) -> (r: Option<T>) where Self: Reposit<T>
        requires
            old(self).inv(),
            old(self).manager_spec().wf(),
        ensures
            final(self).inv(),
            final(self).manager_spec().wf(),
            *final(self) == old(self).with_manager(final(self).manager_spec()),
            match r {
                Some(e) => old(self).manager_spec().contents().contains_key(label@) && e == old(
                    self,
                ).manager_spec().contents()[label@] && final(self).manager_spec().contents() =~= old(
                    self,
                ).manager_spec().contents().remove(label@),
                None => !old(self).manager_spec().contents().contains_key(label@) && *final(self)
                    == *old(self),
            },
    {
        let m = self.manager_mut();
        let out = m.remove(label);
        proof {
            Self::with_manager_facts(*old(self), *final(m));
            Self::manager_id(*old(self));
        }
        out
    }

    /// Insert several kind-`T` entities at once, each under its own
    /// label, replacing any entity already stored there; the returned
    /// references stand in input order.  The labels of one batch must
    /// not repeat.
    fn add<T: ManageTarget>(&mut self, ones: Vec<T>) -> (r: Vec<&mut T>) where Self: Reposit<T>
        requires
            old(self).inv(),
            old(self).manager_spec().wf(),
            forall|k1: int, k2: int|
                0 <= k1 < k2 < ones@.len() ==> ones@[k1].label_view() != ones@[k2].label_view(),
        ensures
            final(self).inv(),
            final(self).manager_spec().wf(),
            *final(self) == old(self).with_manager(final(self).manager_spec()),
            r@.len() == ones@.len(),
            forall|k: int| #![trigger r@[k]] 0 <= k < r@.len() ==> *r@[k] == ones@[k],
            forall|k: int|
                #![trigger r@[k]]
                0 <= k < r@.len() ==> final(self).manager_spec().contents().contains_key(
                    ones@[k].label_view(),
                ) && final(self).manager_spec().contents()[ones@[k].label_view()] == *final(r@[k]),
            forall|l: Seq<char>| #[trigger]
                final(self).manager_spec().contents().contains_key(l) && !label_among(
                    ones@,
                    0,
                    ones@.len() as int,
                    l,
                ) ==> old(self).manager_spec().contents().contains_key(l) && final(self).manager_spec().contents()[l] == old(self).manager_spec().contents()[l],
            forall|l: Seq<char>| #[trigger]
                old(self).manager_spec().contents().contains_key(l) ==> final(self).manager_spec().contents().contains_key(l),
    {
        let m = self.manager_mut();
        proof {
            assert forall|mm: Manager<T>| mm.wf() implies (#[trigger] old(self).with_manager(
                mm,
            )).manager_spec() == mm && old(self).with_manager(mm).inv() by {
                Self::with_manager_facts(*old(self), mm);
            }
            Self::manager_id(*old(self));
        }
        let out = m.add(ones);
        out
    }

    /// Insert one kind-`T` entity under its own label, replacing any
    /// entity already stored there; never a fault.
    fn add_one<T: ManageTarget>(&mut self, one: T) -> (r: &mut T) where Self: Reposit<T>
        requires
            old(self).inv(),
            old(self).manager_spec().wf(),
        ensures
            final(self).inv(),
            final(self).manager_spec().wf(),
            *final(self) == old(self).with_manager(final(self).manager_spec()),
            *r == one,
            final(self).manager_spec().contents() =~= old(self).manager_spec().contents().insert(
                one.label_view(),
                *final(r),
            ),
    {
        let m = self.manager_mut();
        proof {
            assert forall|mm: Manager<T>| mm.wf() implies (#[trigger] old(self).with_manager(
                mm,
            )).manager_spec() == mm && old(self).with_manager(mm).inv() by {
                Self::with_manager_facts(*old(self), mm);
            }
            Self::manager_id(*old(self));
        }
        let out = m.add_one(one);
        out
    }

    /// Remove and return every kind-`T` entity, in storage order.
    fn drain_all<T: ManageTarget>(&mut self) -> (out: Vec<T>) where Self: Reposit<T>
        requires
            old(self).inv(),
            old(self).manager_spec().wf(),
        ensures
            final(self).inv(),
            final(self).manager_spec().wf(),
            *final(self) == old(self).with_manager(final(self).manager_spec()),
            final(self).manager_spec().contents() =~= Map::<Seq<char>, T>::empty(),
            out@ == old(self).manager_spec().vals_view(),
            forall|l: Seq<char>|
                old(self).manager_spec().contents().contains_key(l) ==> out@.contains(
                    old(self).manager_spec().contents()[l],
                ),
    {
        let m = self.manager_mut();
        let out = m.drain_all();
        proof {
            Self::with_manager_facts(*old(self), *final(m));
        }
        out
    }

    /// Remove and return every kind-`T` entity whose stored value the
    /// predicate accepts, leaving every other entity in place.
    fn drain<T: ManageTarget, F: Fn(&T) -> bool>(&mut self, predicate: F) -> (out: Vec<T>) where
        Self: Reposit<T>,

        requires
            old(self).inv(),
            old(self).manager_spec().wf(),
            forall|e: &T| call_requires(predicate, (e,)),
        ensures
            final(self).inv(),
            final(self).manager_spec().wf(),
            *final(self) == old(self).with_manager(final(self).manager_spec()),
            final(self).manager_spec().len_spec() + out@.len() == old(
                self,
            ).manager_spec().len_spec(),
            out@.len() == 0 ==> *final(self) == *old(self),
            forall|l: Seq<char>| #[trigger]
                final(self).manager_spec().contents().contains_key(l) ==> old(
                    self,
                ).manager_spec().contents().contains_key(l) && final(self).manager_spec().contents()[l] == old(self).manager_spec().contents()[l]
                    && call_ensures(predicate, (&old(self).manager_spec().contents()[l],), false),
            forall|l: Seq<char>| #[trigger]
                old(self).manager_spec().contents().contains_key(l) ==> final(self).manager_spec().contents().contains_key(l) || out@.contains(
                    old(self).manager_spec().contents()[l],
                ),
            forall|k: int|
                0 <= k < out@.len() ==> call_ensures(predicate, (&out@[k],), true) && (exists|
                    l: Seq<char>,
                |
                    old(self).manager_spec().contents().contains_key(l) && old(
                        self,
                    ).manager_spec().contents()[l] == out@[k] && !final(self).manager_spec().contents().contains_key(l)),
            exists|sel: Seq<int>|
                {
                    &&& sel.len() == out@.len()
                    &&& (forall|k1: int, k2: int|
                        0 <= k1 < k2 < sel.len() ==> sel[k1] > sel[k2])
                    &&& (forall|k: int|
                        0 <= k < sel.len() ==> 0 <= #[trigger] sel[k] < old(
                            self,
                        ).manager_spec().len_spec())
                    &&& (forall|k: int|
                        #![trigger out@[k]]
                        0 <= k < sel.len() ==> out@[k] == old(self).manager_spec().vals_view()[sel[k]]
                            && call_ensures(
                            predicate,
                            (&old(self).manager_spec().vals_view()[sel[k]],),
                            true,
                        ))
                    &&& (forall|p: int|
                        0 <= p < old(self).manager_spec().len_spec() && !sel.contains(p)
                            ==> call_ensures(
                            predicate,
                            (&old(self).manager_spec().vals_view()[p],),
                            false,
                        ))
                },
    {
        let m = self.manager_mut();
        let out = m.drain(predicate);
        proof {
            Self::with_manager_facts(*old(self), *final(m));
            Self::manager_id(*old(self));
        }
        out
    }

    /// Remove and return the first kind-`T` entity, in storage order,
    /// that the predicate accepts; `None`, and no change, when it
    /// accepts none.
    fn drain_one<T: ManageTarget, F: Fn(&T) -> bool>(&mut self, predicate: F) -> (r: Option<
        T,
    >) where Self: Reposit<T>
        requires
            old(self).inv(),
            old(self).manager_spec().wf(),
            forall|e: &T| call_requires(predicate, (e,)),
        ensures
            final(self).inv(),
            final(self).manager_spec().wf(),
            *final(self) == old(self).with_manager(final(self).manager_spec()),
            match r {
                Some(e) => call_ensures(predicate, (&e,), true) && (exists|l: Seq<char>|
                    old(self).manager_spec().contents().contains_key(l) && old(
                        self,
                    ).manager_spec().contents()[l] == e
                        && final(self).manager_spec().contents() =~= old(
                        self,
                    ).manager_spec().contents().remove(l)),
                None => *final(self) == *old(self) && forall|p: int|
                    0 <= p < old(self).manager_spec().len_spec() ==> call_ensures(
                        predicate,
                        (&old(self).manager_spec().vals_view()[p],),
                        false,
                    ),
            },
    {
        let m = self.manager_mut();
        let out = m.drain_one(predicate);
        proof {
            Self::with_manager_facts(*old(self), *final(m));
            Self::manager_id(*old(self));
        }
        out
    }

    /// References to every kind-`T` entity whose stored value the
    /// predicate accepts, in storage order.
    fn find<T: ManageTarget, F: Fn(&T) -> bool>(&self, predicate: F) -> (out: Vec<&T>) where
        Self: Reposit<T>,

        requires
            self.inv(),
            self.manager_spec().wf(),
            forall|e: &T| call_requires(predicate, (e,)),
        ensures
            out@.len() <= self.manager_spec().len_spec(),
            exists|sel: Seq<int>|
                {
                    &&& sel.len() == out@.len()
                    &&& (forall|k1: int, k2: int|
                        0 <= k1 < k2 < sel.len() ==> sel[k1] < sel[k2])
                    &&& (forall|k: int|
                        0 <= k < sel.len() ==> 0 <= #[trigger] sel[k]
                            < self.manager_spec().len_spec())
                    &&& (forall|k: int|
                        #![trigger out@[k]]
                        0 <= k < sel.len() ==> *out@[k] == self.manager_spec().vals_view()[sel[k]]
                            && call_ensures(
                            predicate,
                            (&self.manager_spec().vals_view()[sel[k]],),
                            true,
                        ))
                    &&& (forall|p: int|
                        0 <= p < self.manager_spec().len_spec() && !sel.contains(p)
                            ==> call_ensures(
                            predicate,
                            (&self.manager_spec().vals_view()[p],),
                            false,
                        ))
                },
    {
        self.manager().find(predicate)
    }

    /// A reference to the first kind-`T` entity, in storage order, that
    /// the predicate accepts; `None` exactly when it accepts none.
    fn find_one<T: ManageTarget, F: Fn(&T) -> bool>(&self, predicate: F) -> (r: Option<&T>) where
        Self: Reposit<T>,

        requires
            self.inv(),
            self.manager_spec().wf(),
            forall|e: &T| call_requires(predicate, (e,)),
        ensures
            match r {
                Some(e) => self.manager_spec().vals_view().contains(*e) && call_ensures(
                    predicate,
                    (e,),
                    true,
                ),
                None => forall|p: int|
                    0 <= p < self.manager_spec().len_spec() ==> call_ensures(
                        predicate,
                        (&self.manager_spec().vals_view()[p],),
                        false,
                    ),
            },
    {
        self.manager().find_one(predicate)
    }

    /// Remove every kind-`T` entity the predicate accepts, discarding
    /// the removed entities; reports whether anything was removed.
    fn delete<T: ManageTarget, F: Fn(&T) -> bool>(&mut self, predicate: F) -> (r: bool) where
        Self: Reposit<T>,

        requires
            old(self).inv(),
            old(self).manager_spec().wf(),
            forall|e: &T| call_requires(predicate, (e,)),
        ensures
            final(self).inv(),
            final(self).manager_spec().wf(),
            *final(self) == old(self).with_manager(final(self).manager_spec()),
            r == (final(self).manager_spec().len_spec() != old(self).manager_spec().len_spec()),
            forall|l: Seq<char>| #[trigger]
                final(self).manager_spec().contents().contains_key(l) ==> old(
                    self,
                ).manager_spec().contents().contains_key(l) && final(self).manager_spec().contents()[l] == old(self).manager_spec().contents()[l]
                    && call_ensures(predicate, (&old(self).manager_spec().contents()[l],), false),
            forall|l: Seq<char>| #[trigger]
                old(self).manager_spec().contents().contains_key(l) && !final(self).manager_spec().contents().contains_key(l) ==> call_ensures(
                    predicate,
                    (&old(self).manager_spec().contents()[l],),
                    true,
                ),
    {
        let m = self.manager_mut();
        let out = m.delete(predicate);
        proof {
            Self::with_manager_facts(*old(self), *final(m));
        }
        out
    }

    /// Remove the first kind-`T` entity, in storage order, that the
    /// predicate accepts, discarding it; reports whether one was
    /// removed.
    fn delete_one<T: ManageTarget, F: Fn(&T) -> bool>(&mut self, predicate: F) -> (r: bool) where
        Self: Reposit<T>,

        requires
            old(self).inv(),
            old(self).manager_spec().wf(),
            forall|e: &T| call_requires(predicate, (e,)),
        ensures
            final(self).inv(),
            final(self).manager_spec().wf(),
            *final(self) == old(self).with_manager(final(self).manager_spec()),
            r ==> exists|l: Seq<char>|
                old(self).manager_spec().contents().contains_key(l) && call_ensures(
                    predicate,
                    (&old(self).manager_spec().contents()[l],),
                    true,
                ) && final(self).manager_spec().contents() =~= old(
                    self,
                ).manager_spec().contents().remove(l),
            !r ==> *final(self) == *old(self) && forall|p: int|
                0 <= p < old(self).manager_spec().len_spec() ==> call_ensures(
                    predicate,
                    (&old(self).manager_spec().vals_view()[p],),
                    false,
                ),
    {
        let m = self.manager_mut();
        let out = m.delete_one(predicate);
        proof {
            Self::with_manager_facts(*old(self), *final(m));
            Self::manager_id(*old(self));
        }
        out
    }

    /// Mutable references to every kind-`T` entity whose stored value
    /// the predicate accepts, in storage order over some selection of
    /// positions; the unselected positions keep their values.
    fn find_mut<T: ManageTarget, F: Fn(&T) -> bool>(&mut self, predicate: F) -> (out: Vec<
        &mut T,
    >) where Self: Reposit<T>
        requires
            old(self).inv(),
            old(self).manager_spec().wf(),
            forall|e: &T| call_requires(predicate, (e,)),
        ensures
            final(self).inv(),
            final(self).manager_spec().wf(),
            *final(self) == old(self).with_manager(final(self).manager_spec()),
            final(self).manager_spec().keys_view() == old(self).manager_spec().keys_view(),
            final(self).manager_spec().len_spec() == old(self).manager_spec().len_spec(),
            out@.len() <= old(self).manager_spec().len_spec(),
            exists|sel: Seq<int>|
                {
                    &&& sel.len() == out@.len()
                    &&& (forall|k1: int, k2: int|
                        0 <= k1 < k2 < sel.len() ==> sel[k1] < sel[k2])
                    &&& (forall|k: int|
                        0 <= k < sel.len() ==> 0 <= #[trigger] sel[k] < old(
                            self,
                        ).manager_spec().len_spec())
                    &&& (forall|k: int|
                        #![trigger out@[k]]
                        0 <= k < sel.len() ==> *out@[k] == old(
                            self,
                        ).manager_spec().vals_view()[sel[k]] && call_ensures(
                            predicate,
                            (&old(self).manager_spec().vals_view()[sel[k]],),
                            true,
                        ) && final(self).manager_spec().vals_view()[sel[k]] == *final(out@[k]))
                    &&& (forall|p: int|
                        0 <= p < old(self).manager_spec().len_spec() && !sel.contains(p)
                            ==> final(self).manager_spec().vals_view()[p] == old(
                            self,
                        ).manager_spec().vals_view()[p] && call_ensures(
                            predicate,
                            (&old(self).manager_spec().vals_view()[p],),
                            false,
                        ))
                },
    {
        let m = self.manager_mut();
        proof {
            assert forall|mm: Manager<T>| mm.wf() implies (#[trigger] old(self).with_manager(
                mm,
            )).manager_spec() == mm && old(self).with_manager(mm).inv() by {
                Self::with_manager_facts(*old(self), mm);
            }
            Self::manager_id(*old(self));
        }
        let out = m.find_mut(predicate);
        out
    }

    /// A mutable reference to the first kind-`T` entity, in storage
    /// order, whose stored value the predicate accepts; `None`, and no
    /// change, exactly when it accepts none.
    fn find_one_mut<T: ManageTarget, F: Fn(&T) -> bool>(&mut self, predicate: F) -> (r: Option<
        &mut T,
    >) where Self: Reposit<T>
        requires
            old(self).inv(),
            old(self).manager_spec().wf(),
            forall|e: &T| call_requires(predicate, (e,)),
        ensures
            final(self).inv(),
            final(self).manager_spec().wf(),
            *final(self) == old(self).with_manager(final(self).manager_spec()),
            match r {
                Some(e) => exists|p: int|
                    0 <= p < old(self).manager_spec().len_spec() && *e == old(
                        self,
                    ).manager_spec().vals_view()[p] && call_ensures(
                        predicate,
                        (&old(self).manager_spec().vals_view()[p],),
                        true,
                    ) && final(self).manager_spec().contents() =~= old(
                        self,
                    ).manager_spec().contents().insert(
                        old(self).manager_spec().keys_view()[p],
                        *final(e),
                    ),
                None => *final(self) == *old(self) && forall|p: int|
                    0 <= p < old(self).manager_spec().len_spec() ==> call_ensures(
                        predicate,
                        (&old(self).manager_spec().vals_view()[p],),
                        false,
                    ),
            },
    {
        let m = self.manager_mut();
        proof {
            assert forall|mm: Manager<T>| mm.wf() implies (#[trigger] old(self).with_manager(
                mm,
            )).manager_spec() == mm && old(self).with_manager(mm).inv() by {
                Self::with_manager_facts(*old(self), mm);
            }
            Self::manager_id(*old(self));
        }
        let out = m.find_one_mut(predicate);
        out
    }

    /// References to every kind-`T` entity the predicate accepts, in
    /// storage order; the same walk as `find`.
    fn filter<T: ManageTarget, F: Fn(&T) -> bool>(&self, predicate: F) -> (out: Vec<&T>) where
        Self: Reposit<T>,

        requires
            self.inv(),
            self.manager_spec().wf(),
            forall|e: &T| call_requires(predicate, (e,)),
        ensures
            out@.len() <= self.manager_spec().len_spec(),
            exists|sel: Seq<int>|
                {
                    &&& sel.len() == out@.len()
                    &&& (forall|k1: int, k2: int|
                        0 <= k1 < k2 < sel.len() ==> sel[k1] < sel[k2])
                    &&& (forall|k: int|
                        0 <= k < sel.len() ==> 0 <= #[trigger] sel[k]
                            < self.manager_spec().len_spec())
                    &&& (forall|k: int|
                        #![trigger out@[k]]
                        0 <= k < sel.len() ==> *out@[k] == self.manager_spec().vals_view()[sel[k]]
                            && call_ensures(
                            predicate,
                            (&self.manager_spec().vals_view()[sel[k]],),
                            true,
                        ))
                    &&& (forall|p: int|
                        0 <= p < self.manager_spec().len_spec() && !sel.contains(p)
                            ==> call_ensures(
                            predicate,
                            (&self.manager_spec().vals_view()[p],),
                            false,
                        ))
                },
    {
        self.manager().filter(predicate)
    }

    /// Mutable references to every kind-`T` entity the predicate
    /// accepts, leaving them stored; the same walk as `find_mut`.
    fn filter_mut<T: ManageTarget, F: Fn(&T) -> bool>(&mut self, predicate: F) -> (out: Vec<
        &mut T,
    >) where Self: Reposit<T>
        requires
            old(self).inv(),
            old(self).manager_spec().wf(),
            forall|e: &T| call_requires(predicate, (e,)),
        ensures
            final(self).inv(),
            final(self).manager_spec().wf(),
            *final(self) == old(self).with_manager(final(self).manager_spec()),
            final(self).manager_spec().keys_view() == old(self).manager_spec().keys_view(),
            final(self).manager_spec().len_spec() == old(self).manager_spec().len_spec(),
            out@.len() <= old(self).manager_spec().len_spec(),
            exists|sel: Seq<int>|
                {
                    &&& sel.len() == out@.len()
                    &&& (forall|k1: int, k2: int|
                        0 <= k1 < k2 < sel.len() ==> sel[k1] < sel[k2])
                    &&& (forall|k: int|
                        0 <= k < sel.len() ==> 0 <= #[trigger] sel[k] < old(
                            self,
                        ).manager_spec().len_spec())
                    &&& (forall|k: int|
                        #![trigger out@[k]]
                        0 <= k < sel.len() ==> *out@[k] == old(
                            self,
                        ).manager_spec().vals_view()[sel[k]] && call_ensures(
                            predicate,
                            (&old(self).manager_spec().vals_view()[sel[k]],),
                            true,
                        ) && final(self).manager_spec().vals_view()[sel[k]] == *final(out@[k]))
                    &&& (forall|p: int|
                        0 <= p < old(self).manager_spec().len_spec() && !sel.contains(p)
                            ==> final(self).manager_spec().vals_view()[p] == old(
                            self,
                        ).manager_spec().vals_view()[p] && call_ensures(
                            predicate,
                            (&old(self).manager_spec().vals_view()[p],),
                            false,
                        ))
                },
    {
        let m = self.manager_mut();
        proof {
            assert forall|mm: Manager<T>| mm.wf() implies (#[trigger] old(self).with_manager(
                mm,
            )).manager_spec() == mm && old(self).with_manager(mm).inv() by {
                Self::with_manager_facts(*old(self), mm);
            }
            Self::manager_id(*old(self));
        }
        let out = m.filter_mut(predicate);
        out
    }

    /// Apply `f` to every stored kind-`T` entity in storage order; a
    /// pure convenience walk, the store itself is untouched.
    fn for_each<T: ManageTarget, F: Fn(&T)>(&self, f: F) where Self: Reposit<T>
        requires
            self.inv(),
            self.manager_spec().wf(),
            forall|e: &T| call_requires(f, (e,)),
    {
        self.manager().for_each(f)
    }

    /// Replace every stored kind-`T` entity by `f` of it, in storage
    /// order; the set of stored labels stays as it was.
    fn for_each_mut<T: ManageTarget, F: Fn(T) -> T>(&mut self, f: F) where Self: Reposit<T>
        requires
            old(self).inv(),
            old(self).manager_spec().wf(),
            forall|e: T| call_requires(f, (e,)),
        ensures
            final(self).inv(),
            final(self).manager_spec().wf(),
            *final(self) == old(self).with_manager(final(self).manager_spec()),
            final(self).manager_spec().keys_view() == old(self).manager_spec().keys_view(),
            final(self).manager_spec().len_spec() == old(self).manager_spec().len_spec(),
            forall|p: int|
                0 <= p < old(self).manager_spec().len_spec() ==> call_ensures(
                    f,
                    (old(self).manager_spec().vals_view()[p],),
                    final(self).manager_spec().vals_view()[p],
                ),
    {
        let m = self.manager_mut();
        m.for_each_mut(f);
        proof {
            Self::with_manager_facts(*old(self), *final(m));
        }
    }
}

} // verus!
