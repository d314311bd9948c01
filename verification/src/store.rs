//! The storage engine: one label-keyed mapping per entity kind, with
//! the whole query and mutation surface proved against a mathematical
//! map view.

use vstd::prelude::*;

use crate::traits::ManageTarget;

verus! {

/// Whether two string slices carry the same character sequence.
fn str_eq(a: &str, b: &str) -> (r: bool)
    ensures
        r == (a@ == b@),
{
    let owned_a: String = a.to_owned();
    let owned_b: String = b.to_owned();
    owned_a == owned_b
}

/// The labels of a batch request, as character sequences, in request
/// order.
pub open spec fn labels_view(labels: Seq<&str>) -> Seq<Seq<char>> {
    labels.map_values(|s: &str| s@)
}

/// No two of the character sequences repeat.
pub open spec fn distinct_seqs(ls: Seq<Seq<char>>) -> bool {
    forall|i: int, j: int| 0 <= i < j < ls.len() ==> ls[i] != ls[j]
}

/// Whether some entity of `ones` between positions `lo` and `hi` carries
/// the label `l`.
pub open spec fn label_among<T: ManageTarget>(ones: Seq<T>, lo: int, hi: int, l: Seq<char>) -> bool {
    exists|j: int| lo <= j < hi && ones[j].label_view() == l
}

/// Hand out one mutable reference for each position named in
/// `idxs[pos..]`, in that order; the positions must be strictly
/// increasing and lie inside the slice, whose first element stands for
/// position `base`.
fn slice_muts_at<'a, T>(s: &'a mut [T], idxs: &Vec<usize>, pos: usize, base: usize) -> (out: Vec<
    &'a mut T,
>)
    requires
        pos <= idxs@.len(),
        base + old(s)@.len() <= usize::MAX,
        forall|k: int|
            pos <= k < idxs@.len() ==> base <= #[trigger] idxs@[k] && idxs@[k] - base < old(
                s,
            )@.len(),
        forall|k1: int, k2: int|
            pos <= k1 < k2 < idxs@.len() ==> idxs@[k1] < idxs@[k2],
    ensures
        out@.len() == idxs@.len() - pos,
        forall|k: int| 0 <= k < out@.len() ==> *out@[k] == old(s)@[idxs@[pos + k] - base],
        final(s)@.len() == old(s)@.len(),
        forall|k: int|
            0 <= k < out@.len() ==> final(s)@[idxs@[pos + k] - base] == *final(out@[k]),
        forall|j: int|
            0 <= j < old(s)@.len() && (forall|k: int|
                pos <= k < idxs@.len() ==> idxs@[k] - base != j) ==> final(s)@[j] == old(s)@[j],
    decreases idxs@.len() - pos,
{
    let mut out: Vec<&'a mut T> = Vec::new();
    if pos < idxs.len() {
        let i0 = idxs[pos] - base;
        let (left, rest) = <[T]>::split_at_mut(s, i0);
        let (mid, tail) = <[T]>::split_at_mut(rest, 1);
        let r0 = <[T]>::first_mut(mid).unwrap();
        let mut rest_out = slice_muts_at(tail, idxs, pos + 1, base + i0 + 1);
        out.push(r0);
        out.append(&mut rest_out);
    }
    out
}

/// One label-keyed mapping of entities of a single kind.
///
/// Keys are captured from each entity's label at insertion time and held
/// beside the entities; within one manager every key is unique, and an
/// insertion under an existing key replaces the entity stored there.
pub struct Manager<T> {
    keys: Vec<String>,
    vals: Vec<T>,
}

impl<T: ManageTarget> Manager<T> {
    /// The keys, as character sequences, in storage order.
    pub closed spec fn keys_view(&self) -> Seq<Seq<char>> {
        self.keys@.map_values(|s: String| s@)
    }

    /// The stored entities, in storage order.
    pub closed spec fn vals_view(&self) -> Seq<T> {
        self.vals@
    }

    /// Every key stands beside exactly one entity, and no key repeats.
    pub open spec fn wf(&self) -> bool {
        &&& self.keys_view().len() == self.vals_view().len()
        &&& forall|i: int, j: int|
            0 <= i < j < self.keys_view().len() ==> self.keys_view()[i] != self.keys_view()[j]
    }

    /// The mapping as a mathematical map from label to entity.
    pub open spec fn contents(&self) -> Map<Seq<char>, T> {
        Map::new(
            |l: Seq<char>| self.keys_view().contains(l),
            |l: Seq<char>| self.vals_view()[self.keys_view().index_of(l)],
        )
    }

    /// How many entities are stored.
    pub open spec fn len_spec(&self) -> nat {
        self.vals_view().len()
    }

    /// With no key repeated, the key at position `i` selects exactly the
    /// entity at position `i`.
    proof fn lemma_key_at(&self, i: int)
        requires
            self.wf(),
            0 <= i < self.keys_view().len(),
        ensures
            self.contents().contains_key(self.keys_view()[i]),
            self.contents()[self.keys_view()[i]] == self.vals_view()[i],
    {
        let l = self.keys_view()[i];
        assert(self.keys_view().contains(l));
        let j = self.keys_view().index_of(l);
        assert(self.keys_view()[j] == l);
        assert(j == i);
    }

    /// Every label in the mapping stands at some position.
    proof fn lemma_contains_at(&self, l: Seq<char>) -> (i: int)
        requires
            self.wf(),
            self.contents().contains_key(l),
        ensures
            0 <= i < self.keys_view().len(),
            self.keys_view()[i] == l,
            self.contents()[l] == self.vals_view()[i],
    {
        let i = self.keys_view().index_of(l);
        self.lemma_key_at(i);
        i
    }

    /// An empty manager.
    pub fn new() -> (r: Self)
        ensures
            r.wf(),
            r.contents() == Map::<Seq<char>, T>::empty(),
            r.len_spec() == 0,
    {
        let r = Manager { keys: Vec::new(), vals: Vec::new() };
        proof {
            assert(r.contents() =~= Map::<Seq<char>, T>::empty());
        }
        r
    }

    /// The position holding `label`, if any.
    fn position_of(&self, label: &str) -> (r: Option<usize>)
        requires
            self.wf(),
        ensures
            match r {
                Some(i) => i < self.keys_view().len() && self.keys_view()[i as int] == label@,
                None => !self.contents().contains_key(label@),
            },
    {
        let n = self.keys.len();
        let mut i: usize = 0;
        while i < n
            invariant
                n == self.keys_view().len(),
                0 <= i <= n,
                forall|j: int| 0 <= j < i ==> self.keys_view()[j] != label@,
            decreases n - i,
        {
            if str_eq(self.keys[i].as_str(), label) {
                return Some(i);
            }
            i += 1;
        }
        assert(!self.keys_view().contains(label@));
        None
    }

    /// Look one entity up by label; absence is an explicit `None`, never
    /// a fault.
    pub fn get_one(&self, label: &str) -> (r: Option<&T>)
        requires
            self.wf(),
        ensures
            match r {
                Some(e) => self.contents().contains_key(label@) && *e == self.contents()[label@],
                None => !self.contents().contains_key(label@),
            },
    {
        match self.position_of(label) {
            Some(i) => {
                proof {
                    self.lemma_key_at(i as int);
                }
                Some(&self.vals[i])
            },
            None => None,
        }
    }

    /// Look one entity up by label for mutation; the mapping afterwards
    /// holds whatever the caller leaves behind the reference.
    pub fn get_one_mut(&mut self, label: &str) -> (r: Option<&mut T>)
        requires
            old(self).wf(),
        ensures
            final(self).wf(),
            final(self).keys_view() == old(self).keys_view(),
            match r {
                Some(e) => old(self).contents().contains_key(label@) && *e == old(
                    self,
                ).contents()[label@] && final(self).contents() =~= old(self).contents().insert(
                    label@,
                    *final(e),
                ),
                None => !old(self).contents().contains_key(label@) && *final(self) == *old(self),
            },
    {
        match self.position_of(label) {
            Some(i) => {
                proof {
                    self.lemma_key_at(i as int);
                }
                Some(&mut self.vals[i])
            },
            None => None,
        }
    }

    /// A mutable reference to the entity at position `i`.
    fn slot_mut(&mut self, i: usize) -> (r: &mut T)
        requires
            old(self).wf(),
            i < old(self).len_spec(),
        ensures
            final(self).wf(),
            *r == old(self).vals_view()[i as int],
            final(self).keys_view() == old(self).keys_view(),
            final(self).vals_view() == old(self).vals_view().update(i as int, *final(r)),
            final(self).contents() =~= old(self).contents().insert(
                old(self).keys_view()[i as int],
                *final(r),
            ),
    {
        proof {
            self.lemma_key_at(i as int);
        }
        &mut self.vals[i]
    }

    /// Exchange the entries at positions `a` and `b`; the mapping is
    /// unchanged, only the storage order moves.
    fn swap_entries(&mut self, a: usize, b: usize)
        requires
            old(self).wf(),
            a <= b < old(self).len_spec(),
        ensures
            final(self).wf(),
            final(self).len_spec() == old(self).len_spec(),
            final(self).keys_view() == old(self).keys_view().update(
                a as int,
                old(self).keys_view()[b as int],
            ).update(b as int, old(self).keys_view()[a as int]),
            final(self).vals_view() == old(self).vals_view().update(
                a as int,
                old(self).vals_view()[b as int],
            ).update(b as int, old(self).vals_view()[a as int]),
            final(self).contents() =~= old(self).contents(),
    {
        if a == b {
            proof {
                assert(self.keys_view() =~= self.keys_view().update(
                    a as int,
                    self.keys_view()[a as int],
                ).update(a as int, self.keys_view()[a as int]));
                assert(self.vals_view() =~= self.vals_view().update(
                    a as int,
                    self.vals_view()[a as int],
                ).update(a as int, self.vals_view()[a as int]));
            }
            return ;
        }
        let kb = self.keys.remove(b);
        let ka = self.keys.remove(a);
        self.keys.insert(a, kb);
        self.keys.insert(b, ka);
        let vb = self.vals.remove(b);
        let va = self.vals.remove(a);
        self.vals.insert(a, vb);
        self.vals.insert(b, va);
        proof {
            let s0 = *old(self);
            let s1 = *self;
            let k1 = s0.keys_view().update(a as int, s0.keys_view()[b as int]).update(
                b as int,
                s0.keys_view()[a as int],
            );
            let v1 = s0.vals_view().update(a as int, s0.vals_view()[b as int]).update(
                b as int,
                s0.vals_view()[a as int],
            );
            assert(s1.keys_view() =~= k1);
            assert(s1.vals_view() =~= v1);
            assert forall|p: int, q: int|
                0 <= p < q < s1.keys_view().len() implies s1.keys_view()[p]
                != s1.keys_view()[q] by {
                let p0: int = if p == a { b as int } else if p == b { a as int } else { p };
                let q0: int = if q == a { b as int } else if q == b { a as int } else { q };
                assert(s1.keys_view()[p] == s0.keys_view()[p0]);
                assert(s1.keys_view()[q] == s0.keys_view()[q0]);
            }
            assert(s1.wf());
            let m0 = s0.contents();
            let m1 = s1.contents();
            assert forall|l: Seq<char>| #[trigger] m1.contains_key(l) implies m0.contains_key(l)
                && m1[l] == m0[l] by {
                let j = s1.lemma_contains_at(l);
                let j0: int = if j == a { b as int } else if j == b { a as int } else { j };
                assert(s0.keys_view()[j0] == l);
                s0.lemma_key_at(j0);
            }
            assert forall|l: Seq<char>| #[trigger] m0.contains_key(l) implies m1.contains_key(
                l,
            ) by {
                let j = s0.lemma_contains_at(l);
                let j1: int = if j == a { b as int } else if j == b { a as int } else { j };
                assert(s1.keys_view()[j1] == l);
                assert(s1.keys_view().contains(l));
            }
            assert(m1 =~= m0);
        }
    }

    /// Disjoint mutable references to the entities stored under the
    /// requested labels, one per label and in request order.  The whole
    /// call fails with `None`, and the mapping is left alone, when a
    /// label repeats or is absent: callers never act on a partial batch.
    pub fn get(&mut self, labels: &[&str]) -> (r: Option<Vec<&mut T>>)
        requires
            old(self).wf(),
        ensures
            final(self).wf(),
            match r {
                Some(out) => {
                    &&& distinct_seqs(labels_view(labels@))
                    &&& forall|k: int|
                        0 <= k < labels@.len() ==> old(self).contents().contains_key(
                            #[trigger] labels@[k]@,
                        )
                    &&& out@.len() == labels@.len()
                    &&& forall|k: int|
                        #![trigger out@[k]]
                        0 <= k < out@.len() ==> *out@[k] == old(self).contents()[labels@[k]@]
                    &&& final(self).contents().dom() =~= old(self).contents().dom()
                    &&& forall|l: Seq<char>|
                        #![trigger final(self).contents().contains_key(l)]
                        #![trigger old(self).contents().contains_key(l)]
                        final(self).contents().contains_key(l) == old(
                            self,
                        ).contents().contains_key(l)
                    &&& forall|k: int|
                        #![trigger out@[k]]
                        0 <= k < out@.len() ==> final(self).contents()[labels@[k]@]
                            == *final(out@[k])
                    &&& forall|l: Seq<char>|
                        #![trigger old(self).contents()[l]]
                        #![trigger final(self).contents()[l]]
                        old(self).contents().contains_key(l) && !labels_view(labels@).contains(l)
                            ==> final(self).contents()[l] == old(self).contents()[l]
                },
                None => {
                    &&& !(distinct_seqs(labels_view(labels@)) && forall|k: int|
                        0 <= k < labels@.len() ==> old(self).contents().contains_key(
                            #[trigger] labels@[k]@,
                        ))
                    &&& final(self).contents() =~= old(self).contents()
                },
            },
    {
        let n = labels.len();
        // refuse a repeated label
        let mut k1: usize = 0;
        while k1 < n
            invariant
                *self == *old(self),
                self.wf(),
                n == labels@.len(),
                0 <= k1 <= n,
                forall|i: int, j: int| 0 <= i < j < k1 ==> labels@[i]@ != labels@[j]@,
                forall|i: int, j: int| 0 <= i < k1 && k1 <= j < n ==> labels@[i]@ != labels@[j]@,
            decreases n - k1,
        {
            let mut k2: usize = k1 + 1;
            while k2 < n
                invariant
                    *self == *old(self),
                    self.wf(),
                    n == labels@.len(),
                    0 <= k1 < k2 <= n,
                    forall|j: int| k1 < j < k2 ==> labels@[k1 as int]@ != labels@[j]@,
                decreases n - k2,
            {
                if str_eq(labels[k1], labels[k2]) {
                    proof {
                        assert(labels_view(labels@)[k1 as int] == labels@[k1 as int]@);
                        assert(labels_view(labels@)[k2 as int] == labels@[k2 as int]@);
                        assert(!distinct_seqs(labels_view(labels@)));
                    }
                    return None;
                }
                k2 += 1;
            }
            k1 += 1;
        }
        proof {
            assert forall|i: int, j: int|
                0 <= i < j < labels_view(labels@).len() implies labels_view(labels@)[i]
                != labels_view(labels@)[j] by {
                assert(labels@[i]@ != labels@[j]@);
            }
            assert(distinct_seqs(labels_view(labels@)));
        }
        // refuse an absent label before anything moves
        let mut k: usize = 0;
        while k < n
            invariant
                self.wf(),
                *self == *old(self),
                n == labels@.len(),
                0 <= k <= n,
                forall|j: int| 0 <= j < k ==> self.contents().contains_key(#[trigger] labels@[j]@),
            decreases n - k,
        {
            if self.position_of(labels[k]).is_none() {
                return None;
            }
            k += 1;
        }
        // bring the requested entities to the front, in request order
        let ghost s0 = *old(self);
        let mut k: usize = 0;
        while k < n
            invariant
                self.wf(),
                s0.wf(),
                distinct_seqs(labels_view(labels@)),
                n == labels@.len(),
                0 <= k <= n,
                k as int <= self.len_spec(),
                self.len_spec() == s0.len_spec(),
                self.contents() =~= s0.contents(),
                forall|j: int| 0 <= j < n ==> s0.contents().contains_key(#[trigger] labels@[j]@),
                forall|j: int| 0 <= j < k ==> self.keys_view()[j] == #[trigger] labels@[j]@,
            decreases n - k,
        {
            match self.position_of(labels[k]) {
                Some(p) => {
                    proof {
                        if p < k {
                            assert(self.keys_view()[p as int] == labels@[p as int]@);
                            assert(labels@[p as int]@ == labels@[k as int]@);
                            assert(labels_view(labels@)[p as int] == labels@[p as int]@);
                            assert(labels_view(labels@)[k as int] == labels@[k as int]@);
                            assert(false);
                        }
                        self.lemma_key_at(p as int);
                    }
                    let ghost cur = *self;
                    self.swap_entries(k, p);
                    proof {
                        assert(self.keys_view()[k as int] == labels@[k as int]@);
                        assert forall|j: int| 0 <= j < k implies self.keys_view()[j]
                            == #[trigger] labels@[j]@ by {
                            assert(self.keys_view()[j] == cur.keys_view()[j]);
                        }
                    }
                    k += 1;
                },
                None => {
                    proof {
                        assert(s0.contents().contains_key(labels@[k as int]@));
                        assert(self.contents().contains_key(labels@[k as int]@));
                        let j = self.lemma_contains_at(labels@[k as int]@);
                        assert(false);
                    }
                    return None;
                },
            }
        }
        // every fact the exit check needs about the arranged state
        proof {
            let sm = *self;
            assert forall|j: int| 0 <= j < n implies sm.keys_view().index_of(#[trigger] labels@[j]@)
                == j by {
                let i = sm.keys_view().index_of(labels@[j]@);
                assert(sm.keys_view().contains(labels@[j]@));
                assert(sm.keys_view()[i] == labels@[j]@);
                assert(sm.keys_view()[j] == labels@[j]@);
            }
            assert forall|j: int| 0 <= j < n implies sm.contents()[#[trigger] labels@[j]@]
                == sm.vals_view()[j] && sm.contents()[labels@[j]@] == s0.contents()[labels@[j]@] by {
                sm.lemma_key_at(j);
            }
            assert forall|l: Seq<char>|
                sm.contents().contains_key(l) && !labels_view(labels@).contains(
                    l,
                ) implies sm.keys_view().index_of(l) >= n && sm.vals_view()[sm.keys_view().index_of(
                l,
            )] == s0.contents()[l] by {
                let j = sm.lemma_contains_at(l);
                if j < n {
                    assert(sm.keys_view()[j] == labels@[j]@);
                    assert(labels_view(labels@)[j] == l);
                    assert(labels_view(labels@).contains(l));
                }
            }
            assert(sm.contents().dom() =~= s0.contents().dom());
        }
        let mut idxs: Vec<usize> = Vec::new();
        let mut k: usize = 0;
        while k < n
            invariant
                0 <= k <= n,
                idxs@.len() == k,
                forall|j: int| 0 <= j < k ==> idxs@[j] == j,
            decreases n - k,
        {
            idxs.push(k);
            k += 1;
        }
        // an exec length read pins the vector's length into usize range
        let total = self.vals.len();
        proof {
            assert(total == self.vals_view().len());
        }
        let out = slice_muts_at(self.vals.as_mut_slice(), &idxs, 0, 0);
        Some(out)
    }

    /// Insert one entity under its own label, replacing whatever entity
    /// held that label before; the returned reference lets the caller go
    /// on adjusting the stored entity.
    pub fn add_one(&mut self, one: T) -> (r: &mut T)
        requires
            old(self).wf(),
        ensures
            final(self).wf(),
            *r == one,
            final(self).contents() =~= old(self).contents().insert(one.label_view(), *final(r)),
    {
        let lbl: String = one.label().to_owned();
        match self.position_of(lbl.as_str()) {
            Some(i) => {
                let slot = self.slot_mut(i);
                *slot = one;
                slot
            },
            None => {
                self.keys.push(lbl);
                self.vals.push(one);
                proof {
                    let s0 = *old(self);
                    let s1 = *self;
                    let n = s0.keys_view().len() as int;
                    assert(s1.keys_view().len() == n + 1);
                    assert(s1.keys_view()[n] == lbl@);
                    assert forall|p: int, q: int|
                        0 <= p < q < s1.keys_view().len() implies s1.keys_view()[p]
                        != s1.keys_view()[q] by {
                        if q == n {
                            assert(s1.keys_view()[p] == s0.keys_view()[p]);
                            if s0.keys_view()[p] == lbl@ {
                                assert(s0.keys_view().contains(lbl@));
                            }
                        } else {
                            assert(s1.keys_view()[p] == s0.keys_view()[p]);
                            assert(s1.keys_view()[q] == s0.keys_view()[q]);
                        }
                    }
                    assert(s1.wf());
                    let m0 = s0.contents();
                    let m1 = s1.contents();
                    assert forall|l: Seq<char>| #[trigger] m1.contains_key(l) implies m0.insert(
                        lbl@,
                        one,
                    ).contains_key(l) && m1[l] == m0.insert(lbl@, one)[l] by {
                        let j = s1.keys_view().index_of(l);
                        assert(s1.keys_view()[j] == l);
                        if j < n {
                            assert(s0.keys_view()[j] == l);
                            if l == lbl@ {
                                assert(s0.keys_view().contains(lbl@));
                            }
                            s0.lemma_key_at(j);
                            s1.lemma_key_at(j);
                        } else {
                            assert(l == lbl@);
                            s1.lemma_key_at(n);
                        }
                    }
                    assert forall|l: Seq<char>| #[trigger] m0.insert(lbl@, one).contains_key(
                        l,
                    ) implies m1.contains_key(l) by {
                        if l == lbl@ {
                            assert(s1.keys_view()[n] == l);
                            assert(s1.keys_view().contains(l));
                        } else {
                            let j = s0.keys_view().index_of(l);
                            assert(s0.keys_view()[j] == l);
                            assert(s1.keys_view()[j] == l);
                            assert(s1.keys_view().contains(l));
                        }
                    }
                    assert(m1 =~= m0.insert(lbl@, one));
                }
                let n = self.vals.len();
                self.slot_mut(n - 1)
            },
        }
    }

    /// Insert several entities at once, each under its own label with
    /// the same replacement rule as inserting one; the returned
    /// references stand in input order, one per inserted entity.  The
    /// labels of one batch must not repeat: with a repeated label no
    /// single entity per reference would remain to hand out.
    pub fn add(&mut self, ones: Vec<T>) -> (r: Vec<&mut T>)
        requires
            old(self).wf(),
            forall|k1: int, k2: int|
                0 <= k1 < k2 < ones@.len() ==> ones@[k1].label_view() != ones@[k2].label_view(),
        ensures
            final(self).wf(),
            r@.len() == ones@.len(),
            forall|k: int| 0 <= k < r@.len() ==> *r@[k] == ones@[k],
            forall|k: int|
                0 <= k < r@.len() ==> final(self).contents().contains_key(
                    #[trigger] ones@[k].label_view(),
                ) && final(self).contents()[ones@[k].label_view()] == *final(r@[k]),
            forall|l: Seq<char>| #[trigger]
                final(self).contents().contains_key(l) && !label_among(ones@, 0, ones@.len() as int, l)
                    ==> old(self).contents().contains_key(l) && final(self).contents()[l] == old(
                    self,
                ).contents()[l],
            forall|l: Seq<char>| #[trigger]
                old(self).contents().contains_key(l) ==> final(self).contents().contains_key(l),
    {
        let ghost s0 = *old(self);
        let ghost ones0 = ones@;
        let n = ones.len();
        // remember each label before the entities move into the store
        let mut labs: Vec<String> = Vec::new();
        let mut k: usize = 0;
        while k < n
            invariant
                *self == *old(self),
                self.wf(),
                ones@ == ones0,
                n == ones0.len(),
                0 <= k <= n,
                labs@.len() == k,
                forall|j: int| 0 <= j < k ==> #[trigger] labs@[j]@ == ones0[j].label_view(),
            decreases n - k,
        {
            labs.push(ones[k].label().to_owned());
            k += 1;
        }
        // insert every entity, later input entries kept on top
        let mut ones = ones;
        while ones.len() > 0
            invariant
                self.wf(),
                s0.wf(),
                ones@ == ones0.take(ones@.len() as int),
                ones@.len() <= ones0.len(),
                forall|k1: int, k2: int|
                    0 <= k1 < k2 < ones0.len() ==> ones0[k1].label_view()
                        != ones0[k2].label_view(),
                forall|j: int|
                    ones@.len() <= j < ones0.len() ==> self.contents().contains_key(
                        #[trigger] ones0[j].label_view(),
                    ) && self.contents()[ones0[j].label_view()] == ones0[j],
                forall|l: Seq<char>| #[trigger]
                    self.contents().contains_key(l) && !label_among(
                        ones0,
                        ones@.len() as int,
                        ones0.len() as int,
                        l,
                    ) ==> s0.contents().contains_key(l) && self.contents()[l]
                        == s0.contents()[l],
                forall|l: Seq<char>| #[trigger]
                    s0.contents().contains_key(l) ==> self.contents().contains_key(l),
            decreases ones@.len(),
        {
            let ghost m = ones@.len() as int;
            let one = ones.pop().unwrap();
            proof {
                assert(one == ones0[m - 1]);
                assert(ones@ =~= ones0.take(m - 1));
            }
            let _ = self.add_one(one);
            proof {
                let mm = ones@.len() as int;
                assert forall|l: Seq<char>| #[trigger]
                    self.contents().contains_key(l) && !label_among(
                        ones0,
                        mm,
                        ones0.len() as int,
                        l,
                    ) implies s0.contents().contains_key(l) && self.contents()[l]
                    == s0.contents()[l] by {
                    assert(ones0[mm].label_view() != l);
                    assert(!label_among(ones0, mm + 1, ones0.len() as int, l));
                }
            }
        }
        // look the whole batch up again, in input order
        let ghost smid = *self;
        let mut refs: Vec<&str> = Vec::new();
        let mut k: usize = 0;
        while k < n
            invariant
                *self == smid,
                n == labs@.len(),
                0 <= k <= n,
                refs@.len() == k,
                forall|j: int| 0 <= j < k ==> #[trigger] refs@[j]@ == labs@[j]@,
            decreases n - k,
        {
            refs.push(labs[k].as_str());
            k += 1;
        }
        proof {
            assert forall|j: int| 0 <= j < n implies #[trigger] refs@[j]@
                == ones0[j].label_view() by {
                assert(refs@[j]@ == labs@[j]@);
            }
            assert forall|i: int, j: int|
                0 <= i < j < labels_view(refs@).len() implies labels_view(refs@)[i]
                != labels_view(refs@)[j] by {
                assert(labels_view(refs@)[i] == refs@[i]@);
                assert(labels_view(refs@)[j] == refs@[j]@);
            }
            assert(distinct_seqs(labels_view(refs@)));
            assert forall|j: int| 0 <= j < n implies self.contents().contains_key(
                #[trigger] refs@[j]@,
            ) && self.contents()[refs@[j]@] == ones0[j] by {
                assert(refs@[j]@ == ones0[j].label_view());
            }
        }
        let labels_arg: &[&str] = refs.as_slice();
        proof {
            assert forall|l: Seq<char>| #[trigger]
                labels_view(labels_arg@).contains(l) implies label_among(
                ones0,
                0,
                ones0.len() as int,
                l,
            ) by {
                let j = choose|j: int|
                    0 <= j < labels_view(labels_arg@).len() && labels_view(labels_arg@)[j] == l;
                assert(refs@[j]@ == ones0[j].label_view());
                assert(ones0[j].label_view() == l);
            }
        }
        match self.get(labels_arg) {
            Some(out) => out,
            None => {
                proof {
                    assert(false);
                }
                Vec::new()
            },
        }
    }

    /// Remove the entry at position `i`, shifting the entries after it
    /// forward by one.
    fn remove_at(&mut self, i: usize) -> (e: T)
        requires
            old(self).wf(),
            i < old(self).len_spec(),
        ensures
            final(self).wf(),
            e == old(self).vals_view()[i as int],
            final(self).keys_view() == old(self).keys_view().remove(i as int),
            final(self).vals_view() == old(self).vals_view().remove(i as int),
            final(self).contents() =~= old(self).contents().remove(
                old(self).keys_view()[i as int],
            ),
    {
        self.keys.remove(i);
        let e = self.vals.remove(i);
        proof {
            let s0 = *old(self);
            let s1 = *self;
            let label = s0.keys_view()[i as int];
            assert forall|p: int, q: int|
                0 <= p < q < s1.keys_view().len() implies s1.keys_view()[p]
                != s1.keys_view()[q] by {
                let p0 = if p < i { p } else { p + 1 };
                let q0 = if q < i { q } else { q + 1 };
                assert(s1.keys_view()[p] == s0.keys_view()[p0]);
                assert(s1.keys_view()[q] == s0.keys_view()[q0]);
            }
            assert(s1.wf());
            let m0 = s0.contents();
            let m1 = s1.contents();
            assert forall|l: Seq<char>| #[trigger] m1.contains_key(l) implies m0.remove(
                label,
            ).contains_key(l) && m1[l] == m0.remove(label)[l] by {
                let j = s1.keys_view().index_of(l);
                assert(s1.keys_view()[j] == l);
                let j0 = if j < i { j } else { j + 1 };
                assert(s0.keys_view()[j0] == l);
                assert(s0.keys_view()[i as int] == label);
                assert(l != label);
                s0.lemma_key_at(j0);
                s1.lemma_key_at(j);
                assert(s1.vals_view()[j] == s0.vals_view()[j0]);
            }
            assert forall|l: Seq<char>| #[trigger] m0.remove(label).contains_key(
                l,
            ) implies m1.contains_key(l) by {
                let j = s0.keys_view().index_of(l);
                assert(s0.keys_view()[j] == l);
                if j < i {
                    assert(s1.keys_view()[j] == l);
                } else {
                    assert(s1.keys_view()[j - 1] == l);
                }
                assert(s1.keys_view().contains(l));
            }
            assert(m1 =~= m0.remove(label));
        }
        e
    }

    /// Remove the entity stored under `label`, handing it to the caller;
    /// absence is an explicit `None`, never a fault.
    pub fn remove(&mut self, label: &str) -> (r: Option<T>)
        requires
            old(self).wf(),
        ensures
            final(self).wf(),
            match r {
                Some(e) => old(self).contents().contains_key(label@) && e == old(
                    self,
                ).contents()[label@] && final(self).contents() =~= old(self).contents().remove(
                    label@,
                ),
                None => !old(self).contents().contains_key(label@) && *final(self) == *old(self),
            },
    {
        match self.position_of(label) {
            Some(i) => {
                proof {
                    self.lemma_key_at(i as int);
                }
                Some(self.remove_at(i))
            },
            None => None,
        }
    }

    /// Remove and return every entity whose stored value the predicate
    /// accepts, leaving every other entity in place with its stored
    /// value untouched.
    pub fn drain<F: Fn(&T) -> bool>(&mut self, predicate: F) -> (out: Vec<T>)
        requires
            old(self).wf(),
            forall|e: &T| call_requires(predicate, (e,)),
        ensures
            final(self).wf(),
            final(self).len_spec() + out@.len() == old(self).len_spec(),
            out@.len() == 0 ==> *final(self) == *old(self),
            forall|l: Seq<char>| #[trigger]
                final(self).contents().contains_key(l) ==> old(self).contents().contains_key(l)
                    && final(self).contents()[l] == old(self).contents()[l] && call_ensures(
                    predicate,
                    (&old(self).contents()[l],),
                    false,
                ),
            forall|l: Seq<char>| #[trigger]
                old(self).contents().contains_key(l) ==> final(self).contents().contains_key(l)
                    || out@.contains(old(self).contents()[l]),
            forall|k: int|
                0 <= k < out@.len() ==> call_ensures(predicate, (&out@[k],), true) && (exists|
                    l: Seq<char>,
                |
                    old(self).contents().contains_key(l) && old(self).contents()[l] == out@[k]
                        && !final(self).contents().contains_key(l)),
            exists|sel: Seq<int>|
                {
                    &&& sel.len() == out@.len()
                    &&& (forall|k1: int, k2: int|
                        0 <= k1 < k2 < sel.len() ==> sel[k1] > sel[k2])
                    &&& (forall|k: int|
                        0 <= k < sel.len() ==> 0 <= #[trigger] sel[k] < old(self).len_spec())
                    &&& (forall|k: int|
                        #![trigger out@[k]]
                        0 <= k < sel.len() ==> out@[k] == old(self).vals_view()[sel[k]]
                            && call_ensures(predicate, (&old(self).vals_view()[sel[k]],), true))
                    &&& (forall|p: int|
                        0 <= p < old(self).len_spec() && !sel.contains(p) ==> call_ensures(
                            predicate,
                            (&old(self).vals_view()[p],),
                            false,
                        ))
                },
    {
        let ghost s0 = *old(self);
        let mut out: Vec<T> = Vec::new();
        let ghost mut rkeys: Seq<Seq<char>> = Seq::empty();
        let ghost mut sel: Seq<int> = Seq::empty();
        let mut i: usize = self.vals.len();
        while i > 0
            invariant
                self.wf(),
                forall|e: &T| call_requires(predicate, (e,)),
                s0.wf(),
                i as int <= self.len_spec(),
                self.len_spec() + out@.len() == s0.len_spec(),
                rkeys.len() == out@.len(),
                sel.len() == out@.len(),
                forall|k1: int, k2: int| 0 <= k1 < k2 < sel.len() ==> sel[k1] > sel[k2],
                forall|k: int| 0 <= k < sel.len() ==> i as int <= #[trigger] sel[k] < s0.len_spec(),
                forall|k: int|
                    #![trigger out@[k]]
                    0 <= k < sel.len() ==> out@[k] == s0.vals_view()[sel[k]] && call_ensures(
                        predicate,
                        (&s0.vals_view()[sel[k]],),
                        true,
                    ),
                forall|p: int|
                    i <= p < s0.len_spec() && !sel.contains(p) ==> call_ensures(
                        predicate,
                        (&s0.vals_view()[p],),
                        false,
                    ),
                out@.len() == 0 ==> *self == s0,
                self.keys_view().subrange(0, i as int) == s0.keys_view().subrange(0, i as int),
                self.vals_view().subrange(0, i as int) == s0.vals_view().subrange(0, i as int),
                forall|p: int|
                    i <= p < self.len_spec() ==> s0.contents().contains_key(
                        #[trigger] self.keys_view()[p],
                    ) && s0.contents()[self.keys_view()[p]] == self.vals_view()[p] && call_ensures(
                        predicate,
                        (&self.vals_view()[p],),
                        false,
                    ),
                forall|k: int|
                    0 <= k < out@.len() ==> s0.contents().contains_key(#[trigger] rkeys[k])
                        && s0.contents()[rkeys[k]] == out@[k] && call_ensures(
                        predicate,
                        (&out@[k],),
                        true,
                    ) && !self.keys_view().contains(rkeys[k]),
                forall|q: int|
                    i <= q < s0.len_spec() ==> self.keys_view().contains(
                        #[trigger] s0.keys_view()[q],
                    ) || rkeys.contains(s0.keys_view()[q]),
            decreases i,
        {
            i -= 1;
            proof {
                assert(self.keys_view().subrange(0, i as int + 1)[i as int] == s0.keys_view().subrange(
                    0,
                    i as int + 1,
                )[i as int]);
                assert(self.vals_view().subrange(0, i as int + 1)[i as int] == s0.vals_view().subrange(
                    0,
                    i as int + 1,
                )[i as int]);
                assert(self.keys_view()[i as int] == s0.keys_view()[i as int]);
                assert(self.vals_view()[i as int] == s0.vals_view()[i as int]);
                s0.lemma_key_at(i as int);
            }
            if predicate(&self.vals[i]) {
                let ghost cur = *self;
                let ghost l = self.keys_view()[i as int];
                let e = self.remove_at(i);
                out.push(e);
                proof {
                    let rk0 = rkeys;
                    let sel0 = sel;
                    rkeys = rkeys.push(l);
                    sel = sel.push(i as int);
                    assert(sel[sel0.len() as int] == i as int);
                    assert(out@[sel0.len() as int] == e);
                    assert forall|k: int|
                        #![trigger out@[k]]
                        0 <= k < sel.len() implies out@[k] == s0.vals_view()[sel[k]]
                        && call_ensures(predicate, (&s0.vals_view()[sel[k]],), true) by {
                        if k < sel.len() - 1 {
                            assert(sel[k] == sel0[k]);
                            assert(out@[k] == out@.drop_last()[k]);
                        }
                    }
                    assert forall|p: int|
                        i <= p < s0.len_spec() && !sel.contains(p) implies call_ensures(
                        predicate,
                        (&s0.vals_view()[p],),
                        false,
                    ) by {
                        if p == i {
                            assert(sel.contains(i as int));
                        } else {
                            assert forall|x: int| sel0.contains(x) implies sel.contains(x) by {
                                let j = choose|j: int| 0 <= j < sel0.len() && sel0[j] == x;
                                assert(sel[j] == x);
                            }
                        }
                    }
                    assert forall|x: Seq<char>| self.keys_view().contains(x) implies cur.keys_view().contains(
                        x,
                    ) && x != l by {
                        let j = choose|j: int|
                            0 <= j < self.keys_view().len() && self.keys_view()[j] == x;
                        let j0 = if j < i { j } else { j + 1 };
                        assert(cur.keys_view()[j0] == x);
                        assert(cur.keys_view().contains(x));
                        assert(j0 != i);
                    }
                    assert forall|x: Seq<char>|
                        cur.keys_view().contains(x) && x != l implies self.keys_view().contains(
                        x,
                    ) by {
                        let j = choose|j: int|
                            0 <= j < cur.keys_view().len() && cur.keys_view()[j] == x;
                        assert(j != i);
                        if j < i {
                            assert(self.keys_view()[j] == x);
                        } else {
                            assert(self.keys_view()[j - 1] == x);
                        }
                    }
                    assert forall|k: int| 0 <= k < out@.len() implies s0.contents().contains_key(
                        #[trigger] rkeys[k],
                    ) && s0.contents()[rkeys[k]] == out@[k] && call_ensures(
                        predicate,
                        (&out@[k],),
                        true,
                    ) && !self.keys_view().contains(rkeys[k]) by {
                        if k < out@.len() - 1 {
                            assert(rkeys[k] == rk0[k]);
                            assert(out@[k] == out@.drop_last()[k]);
                        }
                    }
                    assert forall|p: int| i <= p < self.len_spec() implies s0.contents().contains_key(
                        #[trigger] self.keys_view()[p],
                    ) && s0.contents()[self.keys_view()[p]] == self.vals_view()[p] && call_ensures(
                        predicate,
                        (&self.vals_view()[p],),
                        false,
                    ) by {
                        assert(self.keys_view()[p] == cur.keys_view()[p + 1]);
                        assert(self.vals_view()[p] == cur.vals_view()[p + 1]);
                    }
                    assert(rkeys[rkeys.len() - 1] == l);
                    assert(rkeys.contains(l));
                    assert forall|q: int|
                        i <= q < s0.len_spec() implies self.keys_view().contains(
                        #[trigger] s0.keys_view()[q],
                    ) || rkeys.contains(s0.keys_view()[q]) by {
                        let x = s0.keys_view()[q];
                        if q == i {
                            assert(rkeys.contains(x));
                        } else {
                            if cur.keys_view().contains(x) {
                                assert(x != l);
                            } else {
                                assert(rk0.contains(x));
                                let k0 = choose|k0: int| 0 <= k0 < rk0.len() && rk0[k0] == x;
                                assert(rkeys[k0] == x);
                                assert(rkeys.contains(x));
                            }
                        }
                    }
                }
            }
            proof {
                assert(forall|p: int|
                    i <= p < self.len_spec() ==> s0.contents().contains_key(
                        #[trigger] self.keys_view()[p],
                    ) && s0.contents()[self.keys_view()[p]] == self.vals_view()[p]
                        && call_ensures(predicate, (&self.vals_view()[p],), false));
                assert(forall|k: int|
                    0 <= k < out@.len() ==> s0.contents().contains_key(#[trigger] rkeys[k])
                        && s0.contents()[rkeys[k]] == out@[k] && call_ensures(
                        predicate,
                        (&out@[k],),
                        true,
                    ) && !self.keys_view().contains(rkeys[k]));
            }
        }
        proof {
            let s1 = *self;
            let m0 = s0.contents();
            let m1 = s1.contents();
            assert forall|l: Seq<char>| #[trigger] m1.contains_key(l) implies m0.contains_key(l)
                && m1[l] == m0[l] && call_ensures(predicate, (&m0[l],), false) by {
                let j = s1.lemma_contains_at(l);
            }
            assert forall|l: Seq<char>| #[trigger] m0.contains_key(l) implies m1.contains_key(l)
                || out@.contains(m0[l]) by {
                let q = s0.lemma_contains_at(l);
                if !s1.keys_view().contains(l) {
                    let k = choose|k: int| 0 <= k < rkeys.len() && rkeys[k] == l;
                    assert(out@[k] == m0[l]);
                }
            }
            assert forall|k: int| 0 <= k < out@.len() implies call_ensures(
                predicate,
                (&out@[k],),
                true,
            ) && (exists|l: Seq<char>|
                m0.contains_key(l) && m0[l] == out@[k] && !m1.contains_key(l)) by {
                assert(m0.contains_key(rkeys[k]) && m0[rkeys[k]] == out@[k] && !m1.contains_key(
                    rkeys[k],
                ));
            }
        }
        out
    }

    /// Remove and return the first entity, in storage order, that the
    /// predicate accepts; `None`, and no change, exactly when it accepts
    /// none.
    pub fn drain_one<F: Fn(&T) -> bool>(&mut self, predicate: F) -> (r: Option<T>)
        requires
            old(self).wf(),
            forall|e: &T| call_requires(predicate, (e,)),
        ensures
            final(self).wf(),
            match r {
                Some(e) => call_ensures(predicate, (&e,), true) && (exists|l: Seq<char>|
                    old(self).contents().contains_key(l) && old(self).contents()[l] == e
                        && final(self).contents() =~= old(self).contents().remove(l)),
                None => *final(self) == *old(self) && forall|p: int|
                    0 <= p < old(self).len_spec() ==> call_ensures(
                        predicate,
                        (&old(self).vals_view()[p],),
                        false,
                    ),
            },
    {
        let n = self.vals.len();
        let mut p: usize = 0;
        while p < n
            invariant
                self.wf(),
                forall|e: &T| call_requires(predicate, (e,)),
                *self == *old(self),
                n == self.len_spec(),
                0 <= p <= n,
                forall|q: int|
                    0 <= q < p ==> call_ensures(predicate, (&self.vals_view()[q],), false),
            decreases n - p,
        {
            if predicate(&self.vals[p]) {
                proof {
                    self.lemma_key_at(p as int);
                }
                let ghost l = self.keys_view()[p as int];
                let e = self.remove_at(p);
                proof {
                    assert(old(self).contents().contains_key(l) && old(self).contents()[l] == e
                        && self.contents() =~= old(self).contents().remove(l));
                }
                return Some(e);
            }
            p += 1;
        }
        None
    }

    /// Remove every entity the predicate accepts, discarding the removed
    /// entities; reports whether anything was removed.
    pub fn delete<F: Fn(&T) -> bool>(&mut self, predicate: F) -> (r: bool)
        requires
            old(self).wf(),
            forall|e: &T| call_requires(predicate, (e,)),
        ensures
            final(self).wf(),
            r == (final(self).len_spec() != old(self).len_spec()),
            !r ==> *final(self) == *old(self),
            forall|l: Seq<char>| #[trigger]
                final(self).contents().contains_key(l) ==> old(self).contents().contains_key(l)
                    && final(self).contents()[l] == old(self).contents()[l] && call_ensures(
                    predicate,
                    (&old(self).contents()[l],),
                    false,
                ),
            forall|l: Seq<char>| #[trigger]
                old(self).contents().contains_key(l) && !final(self).contents().contains_key(l)
                    ==> call_ensures(predicate, (&old(self).contents()[l],), true),
    {
        let out = self.drain(predicate);
        proof {
            assert forall|l: Seq<char>| #[trigger]
                old(self).contents().contains_key(l) && !self.contents().contains_key(
                    l,
                ) implies call_ensures(predicate, (&old(self).contents()[l],), true) by {
                assert(out@.contains(old(self).contents()[l]));
                let k = choose|k: int| 0 <= k < out@.len() && out@[k] == old(self).contents()[l];
            }
        }
        !out.is_empty()
    }

    /// Remove the first entity, in storage order, that the predicate
    /// accepts, discarding it; reports whether one was removed.
    pub fn delete_one<F: Fn(&T) -> bool>(&mut self, predicate: F) -> (r: bool)
        requires
            old(self).wf(),
            forall|e: &T| call_requires(predicate, (e,)),
        ensures
            final(self).wf(),
            r ==> exists|l: Seq<char>|
                old(self).contents().contains_key(l) && call_ensures(
                    predicate,
                    (&old(self).contents()[l],),
                    true,
                ) && final(self).contents() =~= old(self).contents().remove(l),
            !r ==> *final(self) == *old(self) && forall|p: int|
                0 <= p < old(self).len_spec() ==> call_ensures(
                    predicate,
                    (&old(self).vals_view()[p],),
                    false,
                ),
    {
        self.drain_one(predicate).is_some()
    }

    /// References to every entity whose stored value the predicate
    /// accepts, in storage order.
    pub fn find<F: Fn(&T) -> bool>(&self, predicate: F) -> (out: Vec<&T>)
        requires
            self.wf(),
            forall|e: &T| call_requires(predicate, (e,)),
        ensures
            out@.len() <= self.len_spec(),
            exists|sel: Seq<int>|
                {
                    &&& sel.len() == out@.len()
                    &&& (forall|k1: int, k2: int|
                        0 <= k1 < k2 < sel.len() ==> sel[k1] < sel[k2])
                    &&& (forall|k: int| 0 <= k < sel.len() ==> 0 <= #[trigger] sel[k] < self.len_spec())
                    &&& (forall|k: int|
                        #![trigger out@[k]]
                        0 <= k < sel.len() ==> *out@[k] == self.vals_view()[sel[k]]
                            && call_ensures(predicate, (&self.vals_view()[sel[k]],), true))
                    &&& (forall|p: int|
                        0 <= p < self.len_spec() && !sel.contains(p) ==> call_ensures(
                            predicate,
                            (&self.vals_view()[p],),
                            false,
                        ))
                },
    {
        let n = self.vals.len();
        let mut out: Vec<&T> = Vec::new();
        let ghost mut sel: Seq<int> = Seq::empty();
        let mut p: usize = 0;
        while p < n
            invariant
                self.wf(),
                forall|e: &T| call_requires(predicate, (e,)),
                n == self.len_spec(),
                0 <= p <= n,
                sel.len() == out@.len(),
                sel.len() <= p,
                forall|k1: int, k2: int| 0 <= k1 < k2 < sel.len() ==> sel[k1] < sel[k2],
                forall|k: int| 0 <= k < sel.len() ==> 0 <= #[trigger] sel[k] < p,
                forall|k: int|
                    #![trigger out@[k]]
                    0 <= k < sel.len() ==> *out@[k] == self.vals_view()[sel[k]] && call_ensures(
                        predicate,
                        (&self.vals_view()[sel[k]],),
                        true,
                    ),
                forall|q: int|
                    0 <= q < p && !sel.contains(q) ==> call_ensures(
                        predicate,
                        (&self.vals_view()[q],),
                        false,
                    ),
            decreases n - p,
        {
            let e = &self.vals[p];
            if predicate(e) {
                let ghost sel0 = sel;
                out.push(e);
                proof {
                    sel = sel.push(p as int);
                    assert(sel[sel0.len() as int] == p as int);
                    assert(out@[sel0.len() as int] == e);
                    assert forall|q: int|
                        0 <= q < p + 1 && !sel.contains(q) implies call_ensures(
                        predicate,
                        (&self.vals_view()[q],),
                        false,
                    ) by {
                        if q < p {
                            assert forall|x: int| sel0.contains(x) implies sel.contains(x) by {
                                let j = choose|j: int| 0 <= j < sel0.len() && sel0[j] == x;
                                assert(sel[j] == x);
                            }
                        } else {
                            assert(sel.contains(p as int));
                        }
                    }
                }
            }
            p += 1;
        }
        out
    }

    /// A reference to the first entity, in storage order, that the
    /// predicate accepts; `None` exactly when it accepts none.
    pub fn find_one<F: Fn(&T) -> bool>(&self, predicate: F) -> (r: Option<&T>)
        requires
            self.wf(),
            forall|e: &T| call_requires(predicate, (e,)),
        ensures
            match r {
                Some(e) => self.vals_view().contains(*e) && call_ensures(predicate, (e,), true),
                None => forall|p: int|
                    0 <= p < self.len_spec() ==> call_ensures(
                        predicate,
                        (&self.vals_view()[p],),
                        false,
                    ),
            },
    {
        let n = self.vals.len();
        let mut p: usize = 0;
        while p < n
            invariant
                self.wf(),
                forall|e: &T| call_requires(predicate, (e,)),
                n == self.len_spec(),
                0 <= p <= n,
                forall|q: int|
                    0 <= q < p ==> call_ensures(predicate, (&self.vals_view()[q],), false),
            decreases n - p,
        {
            let e = &self.vals[p];
            if predicate(e) {
                return Some(e);
            }
            p += 1;
        }
        None
    }

    /// References to every entity the predicate accepts, in storage
    /// order; the entities stay in the store.  Same walk as `find`.
    pub fn filter<F: Fn(&T) -> bool>(&self, predicate: F) -> (out: Vec<&T>)
        requires
            self.wf(),
            forall|e: &T| call_requires(predicate, (e,)),
        ensures
            out@.len() <= self.len_spec(),
            exists|sel: Seq<int>|
                {
                    &&& sel.len() == out@.len()
                    &&& (forall|k1: int, k2: int|
                        0 <= k1 < k2 < sel.len() ==> sel[k1] < sel[k2])
                    &&& (forall|k: int| 0 <= k < sel.len() ==> 0 <= #[trigger] sel[k] < self.len_spec())
                    &&& (forall|k: int|
                        #![trigger out@[k]]
                        0 <= k < sel.len() ==> *out@[k] == self.vals_view()[sel[k]]
                            && call_ensures(predicate, (&self.vals_view()[sel[k]],), true))
                    &&& (forall|p: int|
                        0 <= p < self.len_spec() && !sel.contains(p) ==> call_ensures(
                            predicate,
                            (&self.vals_view()[p],),
                            false,
                        ))
                },
    {
        self.find(predicate)
    }

    /// Mutable references to every entity whose stored value the
    /// predicate accepts, in storage order over some selection of
    /// positions; every position outside the selection keeps its value,
    /// with the predicate having turned it down.
    pub fn find_mut<F: Fn(&T) -> bool>(&mut self, predicate: F) -> (out: Vec<&mut T>)
        requires
            old(self).wf(),
            forall|e: &T| call_requires(predicate, (e,)),
        ensures
            final(self).wf(),
            final(self).keys_view() == old(self).keys_view(),
            final(self).len_spec() == old(self).len_spec(),
            out@.len() <= old(self).len_spec(),
            exists|sel: Seq<int>|
                {
                    &&& sel.len() == out@.len()
                    &&& (forall|k1: int, k2: int|
                        0 <= k1 < k2 < sel.len() ==> sel[k1] < sel[k2])
                    &&& (forall|k: int| 0 <= k < sel.len() ==> 0 <= #[trigger] sel[k] < old(self).len_spec())
                    &&& (forall|k: int|
                        #![trigger out@[k]]
                        0 <= k < sel.len() ==> *out@[k] == old(self).vals_view()[sel[k]]
                            && call_ensures(
                            predicate,
                            (&old(self).vals_view()[sel[k]],),
                            true,
                        ) && final(self).vals_view()[sel[k]] == *final(out@[k]))
                    &&& (forall|p: int|
                        0 <= p < old(self).len_spec() && !sel.contains(p)
                            ==> final(self).vals_view()[p] == old(self).vals_view()[p]
                            && call_ensures(predicate, (&old(self).vals_view()[p],), false))
                },
    {
        let n = self.vals.len();
        let mut idxs: Vec<usize> = Vec::new();
        let mut p: usize = 0;
        while p < n
            invariant
                *self == *old(self),
                self.wf(),
                forall|e: &T| call_requires(predicate, (e,)),
                n == self.len_spec(),
                0 <= p <= n,
                idxs@.len() <= p,
                forall|k1: int, k2: int| 0 <= k1 < k2 < idxs@.len() ==> idxs@[k1] < idxs@[k2],
                forall|k: int| 0 <= k < idxs@.len() ==> 0 <= #[trigger] idxs@[k] < p,
                forall|k: int|
                    0 <= k < idxs@.len() ==> call_ensures(
                        predicate,
                        (&self.vals_view()[idxs@[k] as int],),
                        true,
                    ),
                forall|q: int|
                    0 <= q < p && !idxs@.contains(q as usize) ==> call_ensures(
                        predicate,
                        (&self.vals_view()[q],),
                        false,
                    ),
            decreases n - p,
        {
            if predicate(&self.vals[p]) {
                let ghost i0 = idxs@;
                idxs.push(p);
                proof {
                    assert(idxs@[i0.len() as int] == p);
                    assert forall|q: int|
                        0 <= q < p + 1 && !idxs@.contains(q as usize) implies call_ensures(
                        predicate,
                        (&self.vals_view()[q],),
                        false,
                    ) by {
                        if q < p {
                            assert forall|x: usize| i0.contains(x) implies idxs@.contains(x) by {
                                let j = choose|j: int| 0 <= j < i0.len() && i0[j] == x;
                                assert(idxs@[j] == x);
                            }
                        } else {
                            assert(idxs@.contains(p as usize));
                        }
                    }
                }
            }
            p += 1;
        }
        let ghost sel = idxs@.map_values(|u: usize| u as int);
        proof {
            assert(sel.len() == idxs@.len());
            assert forall|k: int| 0 <= k < sel.len() implies #[trigger] sel[k]
                == idxs@[k] as int by {}
            assert forall|q: int| 0 <= q < n && !sel.contains(q) implies !idxs@.contains(
                q as usize,
            ) by {
                if idxs@.contains(q as usize) {
                    let j = choose|j: int| 0 <= j < idxs@.len() && idxs@[j] == q as usize;
                    assert(sel[j] == q);
                    assert(sel.contains(q));
                }
            }
            assert forall|q: int| 0 <= q < n && !idxs@.contains(q as usize) implies !sel.contains(
                q,
            ) by {
                if sel.contains(q) {
                    let j = choose|j: int| 0 <= j < sel.len() && sel[j] == q;
                    assert(idxs@[j] == q as usize);
                    assert(idxs@.contains(q as usize));
                }
            }
        }
        let out = slice_muts_at(self.vals.as_mut_slice(), &idxs, 0, 0);
        out
    }

    /// `find_mut` under the walk-and-pick name: mutable references to
    /// the entities the predicate accepts, leaving them stored.
    pub fn filter_mut<F: Fn(&T) -> bool>(&mut self, predicate: F) -> (out: Vec<&mut T>)
        requires
            old(self).wf(),
            forall|e: &T| call_requires(predicate, (e,)),
        ensures
            final(self).wf(),
            final(self).keys_view() == old(self).keys_view(),
            final(self).len_spec() == old(self).len_spec(),
            out@.len() <= old(self).len_spec(),
            exists|sel: Seq<int>|
                {
                    &&& sel.len() == out@.len()
                    &&& (forall|k1: int, k2: int|
                        0 <= k1 < k2 < sel.len() ==> sel[k1] < sel[k2])
                    &&& (forall|k: int| 0 <= k < sel.len() ==> 0 <= #[trigger] sel[k] < old(self).len_spec())
                    &&& (forall|k: int|
                        #![trigger out@[k]]
                        0 <= k < sel.len() ==> *out@[k] == old(self).vals_view()[sel[k]]
                            && call_ensures(
                            predicate,
                            (&old(self).vals_view()[sel[k]],),
                            true,
                        ) && final(self).vals_view()[sel[k]] == *final(out@[k]))
                    &&& (forall|p: int|
                        0 <= p < old(self).len_spec() && !sel.contains(p)
                            ==> final(self).vals_view()[p] == old(self).vals_view()[p]
                            && call_ensures(predicate, (&old(self).vals_view()[p],), false))
                },
    {
        self.find_mut(predicate)
    }

    /// A mutable reference to the first entity, in storage order, whose
    /// stored value the predicate accepts; `None`, and no change,
    /// exactly when it accepts none.
    pub fn find_one_mut<F: Fn(&T) -> bool>(&mut self, predicate: F) -> (r: Option<&mut T>)
        requires
            old(self).wf(),
            forall|e: &T| call_requires(predicate, (e,)),
        ensures
            final(self).wf(),
            match r {
                Some(e) => exists|p: int|
                    0 <= p < old(self).len_spec() && *e == old(self).vals_view()[p]
                        && call_ensures(predicate, (&old(self).vals_view()[p],), true)
                        && final(self).contents() =~= old(self).contents().insert(
                        old(self).keys_view()[p],
                        *final(e),
                    ),
                None => *final(self) == *old(self) && forall|p: int|
                    0 <= p < old(self).len_spec() ==> call_ensures(
                        predicate,
                        (&old(self).vals_view()[p],),
                        false,
                    ),
            },
    {
        let n = self.vals.len();
        let mut p: usize = 0;
        while p < n
            invariant
                self.wf(),
                forall|e: &T| call_requires(predicate, (e,)),
                *self == *old(self),
                n == self.len_spec(),
                0 <= p <= n,
                forall|q: int|
                    0 <= q < p ==> call_ensures(predicate, (&self.vals_view()[q],), false),
            decreases n - p,
        {
            if predicate(&self.vals[p]) {
                return Some(self.slot_mut(p));
            }
            p += 1;
        }
        None
    }

    /// Apply `f` to every stored entity in storage order; a pure
    /// convenience walk, the store itself is untouched.
    pub fn for_each<F: Fn(&T)>(&self, f: F)
        requires
            self.wf(),
            forall|e: &T| call_requires(f, (e,)),
    {
        let n = self.vals.len();
        let mut p: usize = 0;
        while p < n
            invariant
                self.wf(),
                forall|e: &T| call_requires(f, (e,)),
                n == self.len_spec(),
            decreases n - p,
        {
            f(&self.vals[p]);
            p += 1;
        }
    }

    /// Replace every stored entity by `f` of it, in storage order; the
    /// keys, and so the set of stored labels, stay as they were.
    pub fn for_each_mut<F: Fn(T) -> T>(&mut self, f: F)
        requires
            old(self).wf(),
            forall|e: T| call_requires(f, (e,)),
        ensures
            final(self).wf(),
            final(self).keys_view() == old(self).keys_view(),
            final(self).len_spec() == old(self).len_spec(),
            forall|p: int|
                0 <= p < old(self).len_spec() ==> call_ensures(
                    f,
                    (old(self).vals_view()[p],),
                    final(self).vals_view()[p],
                ),
    {
        let n = self.vals.len();
        let mut p: usize = 0;
        while p < n
            invariant
                self.wf(),
                forall|e: T| call_requires(f, (e,)),
                n == self.len_spec(),
                0 <= p <= n,
                self.keys_view() == old(self).keys_view(),
                self.vals_view().len() == old(self).vals_view().len(),
                forall|q: int|
                    0 <= q < p ==> call_ensures(
                        f,
                        (old(self).vals_view()[q],),
                        self.vals_view()[q],
                    ),
                forall|q: int| p <= q < n ==> self.vals_view()[q] == old(self).vals_view()[q],
            decreases n - p,
        {
            let taken = self.vals.swap_remove(p);
            let renewed = f(taken);
            self.vals.push(renewed);
            let moved = self.vals.swap_remove(p);
            self.vals.push(moved);
            p += 1;
        }
    }

    /// References to every stored entity, in storage order.
    pub fn iter(&self) -> (out: Vec<&T>)
        requires
            self.wf(),
        ensures
            out@.len() == self.len_spec(),
            forall|p: int| #![trigger out@[p]] 0 <= p < out@.len() ==> *out@[p] == self.vals_view()[p],
    {
        let n = self.vals.len();
        let mut out: Vec<&T> = Vec::new();
        let mut p: usize = 0;
        while p < n
            invariant
                self.wf(),
                n == self.len_spec(),
                0 <= p <= n,
                out@.len() == p,
                forall|q: int| #![trigger out@[q]] 0 <= q < p ==> *out@[q] == self.vals_view()[q],
            decreases n - p,
        {
            out.push(&self.vals[p]);
            p += 1;
        }
        out
    }

    /// Mutable references to every stored entity, in storage order; the
    /// mapping afterwards holds, position by position, whatever the
    /// caller leaves behind the references.
    pub fn iter_mut(&mut self) -> (out: Vec<&mut T>)
        requires
            old(self).wf(),
        ensures
            final(self).wf(),
            final(self).keys_view() == old(self).keys_view(),
            final(self).len_spec() == old(self).len_spec(),
            out@.len() == old(self).len_spec(),
            forall|p: int|
                #![trigger out@[p]]
                0 <= p < out@.len() ==> *out@[p] == old(self).vals_view()[p]
                    && final(self).vals_view()[p] == *final(out@[p]),
    {
        let n = self.vals.len();
        let mut idxs: Vec<usize> = Vec::new();
        let mut p: usize = 0;
        while p < n
            invariant
                *self == *old(self),
                self.wf(),
                n == self.len_spec(),
                0 <= p <= n,
                idxs@.len() == p,
                forall|q: int| 0 <= q < p ==> idxs@[q] == q,
            decreases n - p,
        {
            idxs.push(p);
            p += 1;
        }
        let out = slice_muts_at(self.vals.as_mut_slice(), &idxs, 0, 0);
        out
    }

    /// Remove and return every entity of this kind, in storage order.
    pub fn drain_all(&mut self) -> (out: Vec<T>)
        requires
            old(self).wf(),
        ensures
            final(self).wf(),
            final(self).contents() =~= Map::<Seq<char>, T>::empty(),
            final(self).len_spec() == 0,
            out@ == old(self).vals_view(),
            forall|l: Seq<char>|
                old(self).contents().contains_key(l) ==> out@.contains(
                    old(self).contents()[l],
                ),
    {
        let mut out: Vec<T> = Vec::new();
        core::mem::swap(&mut self.vals, &mut out);
        self.keys.clear();
        proof {
            let s0 = *old(self);
            assert forall|l: Seq<char>| s0.contents().contains_key(l) implies out@.contains(
                s0.contents()[l],
            ) by {
                let i = s0.lemma_contains_at(l);
                assert(out@[i] == s0.contents()[l]);
            }
        }
        out
    }

    /// Remove every entity of this kind.
    pub fn clear(&mut self)
        ensures
            final(self).wf(),
            final(self).contents() =~= Map::<Seq<char>, T>::empty(),
            final(self).len_spec() == 0,
    {
        self.keys.clear();
        self.vals.clear();
    }
}

} // verus!
