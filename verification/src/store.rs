//! An in-memory vector store, the verified reference model of the remote
//! index: named collections of points keyed by 64-bit identity, with
//! replace-on-upsert semantics. It also serves the tests as the store
//! double, mirroring what a remote collection would hold.

use vstd::prelude::*;
use crate::models::{Payload, VectorInput, VectorOutput};
use crate::text::str_eq;

verus! {

/// The abstract value of one stored point: identity, embedding bits, and
/// payload entries as character sequences.
pub type PointModel = (u64, Seq<u32>, Seq<(Seq<char>, Seq<char>)>);

/// The abstract value of an input point.
pub open spec fn input_model(x: VectorInput) -> PointModel {
    (x.id, x.embedding@, x.payload.entries_view())
}

/// The abstract contents of a sequence of stored points.
pub open spec fn points_model(entries: Seq<VectorInput>) -> Seq<PointModel> {
    entries.map_values(|x: VectorInput| input_model(x))
}

/// The first point with the given identity.
pub open spec fn spec_find(points: Seq<PointModel>, id: u64) -> Option<PointModel>
    decreases points.len(),
{
    if points.len() == 0 {
        None
    } else if points[0].0 == id {
        Some(points[0])
    } else {
        spec_find(points.drop_first(), id)
    }
}

/// Upserting one point removes every stored point with the same identity
/// and appends the new one.
pub open spec fn spec_upsert_one(points: Seq<PointModel>, p: PointModel) -> Seq<PointModel> {
    points.filter(|q: PointModel| q.0 != p.0).push(p)
}

/// Upserting a batch, first to last.
pub open spec fn spec_upsert_all(points: Seq<PointModel>, ps: Seq<PointModel>) -> Seq<PointModel>
    decreases ps.len(),
{
    if ps.len() == 0 {
        points
    } else {
        spec_upsert_all(spec_upsert_one(points, ps[0]), ps.drop_first())
    }
}

/// Collection lookup by name, first match.
pub open spec fn coll_lookup(cs: Seq<(String, Vec<VectorInput>)>, name: Seq<char>) -> Option<
    Seq<PointModel>,
>
    decreases cs.len(),
{
    if cs.len() == 0 {
        None
    } else if cs[0].0@ == name {
        Some(points_model(cs[0].1@))
    } else {
        coll_lookup(cs.drop_first(), name)
    }
}

proof fn lemma_lookup_none_iff(cs: Seq<(String, Vec<VectorInput>)>, name: Seq<char>)
    ensures
        coll_lookup(cs, name) is None <==> (forall|i: int| 0 <= i < cs.len() ==> cs[i].0@ != name),
    decreases cs.len(),
{
    if cs.len() > 0 {
        lemma_lookup_none_iff(cs.drop_first(), name);
        if coll_lookup(cs, name) is None {
            assert forall|i: int| 0 <= i < cs.len() implies cs[i].0@ != name by {
                if i > 0 {
                    assert(cs.drop_first()[i - 1] == cs[i]);
                }
            }
        }
        if forall|i: int| 0 <= i < cs.len() ==> cs[i].0@ != name {
            assert forall|i: int|
                0 <= i < cs.drop_first().len() implies cs.drop_first()[i].0@ != name by {
                assert(cs.drop_first()[i] == cs[i + 1]);
            }
            assert(coll_lookup(cs.drop_first(), name) is None);
        }
    }
}

proof fn lemma_lookup_push(
    cs: Seq<(String, Vec<VectorInput>)>,
    x: (String, Vec<VectorInput>),
    name: Seq<char>,
)
    ensures
        coll_lookup(cs.push(x), name) == (match coll_lookup(cs, name) {
            Some(v) => Some(v),
            None => if x.0@ == name {
                Some(points_model(x.1@))
            } else {
                None
            },
        }),
    decreases cs.len(),
{
    reveal_with_fuel(coll_lookup, 3);
    if cs.len() == 0 {
        assert(cs.push(x) =~= seq![x]);
        assert(cs.push(x)[0] == x);
        assert(cs.push(x).drop_first() =~= Seq::<(String, Vec<VectorInput>)>::empty());
        if x.0@ == name {
            assert(coll_lookup(cs.push(x), name) == Some(points_model(x.1@)));
        } else {
            assert(coll_lookup(cs.push(x), name) is None);
        }
    } else {
        assert(cs.push(x)[0] == cs[0]);
        assert(cs.push(x).drop_first() =~= cs.drop_first().push(x));
        lemma_lookup_push(cs.drop_first(), x, name);
        if cs[0].0@ == name {
            assert(coll_lookup(cs.push(x), name) == Some(points_model(cs[0].1@)));
            assert(coll_lookup(cs, name) == Some(points_model(cs[0].1@)));
        } else {
            assert(coll_lookup(cs.push(x), name) == coll_lookup(cs.drop_first().push(x), name));
            assert(coll_lookup(cs, name) == coll_lookup(cs.drop_first(), name));
        }
    }
}

proof fn lemma_lookup_remove(cs: Seq<(String, Vec<VectorInput>)>, i: int, name: Seq<char>)
    requires
        0 <= i < cs.len(),
        cs[i].0@ == name,
        forall|j: int| 0 <= j < cs.len() && j != i ==> cs[j].0@ != name,
    ensures
        coll_lookup(cs.remove(i), name) is None,
        forall|n: Seq<char>| n != name ==> coll_lookup(cs.remove(i), n) == coll_lookup(cs, n),
    decreases i,
{
    reveal_with_fuel(coll_lookup, 2);
    cs.remove_ensures(i);
    if i == 0 {
        assert(cs.remove(0) =~= cs.drop_first());
        lemma_lookup_none_iff(cs.drop_first(), name);
        assert forall|j: int| 0 <= j < cs.drop_first().len() implies cs.drop_first()[j].0@
            != name by {
            assert(cs.drop_first()[j] == cs[j + 1]);
        }
        assert(coll_lookup(cs.remove(i), name) is None);
        assert forall|n: Seq<char>| n != name implies coll_lookup(cs.remove(i), n) == coll_lookup(
            cs,
            n,
        ) by {
            assert(coll_lookup(cs, n) == coll_lookup(cs.drop_first(), n));
        }
    } else {
        assert(cs.remove(i)[0] == cs[0]);
        assert(cs.remove(i).drop_first() =~= cs.drop_first().remove(i - 1));
        assert forall|j: int|
            0 <= j < cs.drop_first().len() && j != i - 1 implies cs.drop_first()[j].0@ != name by {
            assert(cs.drop_first()[j] == cs[j + 1]);
        }
        assert(cs.drop_first()[i - 1] == cs[i]);
        lemma_lookup_remove(cs.drop_first(), i - 1, name);
        assert(cs[0].0@ != name);
        assert(coll_lookup(cs.remove(i), name) == coll_lookup(cs.drop_first().remove(i - 1), name));
        assert forall|n: Seq<char>| n != name implies coll_lookup(cs.remove(i), n) == coll_lookup(
            cs,
            n,
        ) by {
            if cs[0].0@ == n {
                assert(coll_lookup(cs.remove(i), n) == Some(points_model(cs[0].1@)));
                assert(coll_lookup(cs, n) == Some(points_model(cs[0].1@)));
            } else {
                assert(coll_lookup(cs.remove(i), n) == coll_lookup(
                    cs.drop_first().remove(i - 1),
                    n,
                ));
                assert(coll_lookup(cs, n) == coll_lookup(cs.drop_first(), n));
            }
        }
    }
}

proof fn lemma_lookup_update(
    cs: Seq<(String, Vec<VectorInput>)>,
    i: int,
    x: (String, Vec<VectorInput>),
)
    requires
        0 <= i < cs.len(),
        x.0@ == cs[i].0@,
        forall|j: int| 0 <= j < i ==> cs[j].0@ != cs[i].0@,
    ensures
        coll_lookup(cs.update(i, x), cs[i].0@) == Some(points_model(x.1@)),
        forall|n: Seq<char>|
            n != cs[i].0@ ==> coll_lookup(cs.update(i, x), n) == coll_lookup(cs, n),
    decreases i,
{
    reveal_with_fuel(coll_lookup, 2);
    if i == 0 {
        assert(cs.update(0, x)[0] == x);
        assert(cs.update(0, x).drop_first() =~= cs.drop_first());
        assert(coll_lookup(cs.update(0, x), cs[0].0@) == Some(points_model(x.1@)));
        assert forall|n: Seq<char>| n != cs[0].0@ implies coll_lookup(cs.update(0, x), n)
            == coll_lookup(cs, n) by {
            assert(coll_lookup(cs.update(0, x), n) == coll_lookup(cs.drop_first(), n));
            assert(coll_lookup(cs, n) == coll_lookup(cs.drop_first(), n));
        }
    } else {
        assert(cs.update(i, x)[0] == cs[0]);
        assert(cs.update(i, x).drop_first() =~= cs.drop_first().update(i - 1, x));
        assert(cs.drop_first()[i - 1] == cs[i]);
        assert forall|j: int| 0 <= j < i - 1 implies (#[trigger] cs.drop_first()[j]).0@
            != cs.drop_first()[i - 1].0@ by {
            assert(cs.drop_first()[j] == cs[j + 1]);
        }
        lemma_lookup_update(cs.drop_first(), i - 1, x);
        assert(cs[0].0@ != cs[i].0@);
        assert(coll_lookup(cs.update(i, x), cs[i].0@) == coll_lookup(
            cs.drop_first().update(i - 1, x),
            cs[i].0@,
        ));
        assert forall|n: Seq<char>| n != cs[i].0@ implies coll_lookup(cs.update(i, x), n)
            == coll_lookup(cs, n) by {
            if cs[0].0@ == n {
                assert(coll_lookup(cs.update(i, x), n) == Some(points_model(cs[0].1@)));
                assert(coll_lookup(cs, n) == Some(points_model(cs[0].1@)));
            } else {
                assert(coll_lookup(cs.update(i, x), n) == coll_lookup(
                    cs.drop_first().update(i - 1, x),
                    n,
                ));
                assert(coll_lookup(cs, n) == coll_lookup(cs.drop_first(), n));
            }
        }
    }
}

proof fn lemma_upsert_all_push(points: Seq<PointModel>, ps: Seq<PointModel>, p: PointModel)
    ensures
        spec_upsert_all(points, ps.push(p)) == spec_upsert_one(spec_upsert_all(points, ps), p),
    decreases ps.len(),
{
    reveal_with_fuel(spec_upsert_all, 3);
    if ps.len() == 0 {
        assert(ps.push(p)[0] == p);
        assert(ps.push(p).drop_first() =~= Seq::<PointModel>::empty());
        assert(spec_upsert_all(points, ps.push(p)) == spec_upsert_all(
            spec_upsert_one(points, p),
            Seq::<PointModel>::empty(),
        ));
        assert(spec_upsert_all(points, ps) == points);
    } else {
        assert(ps.push(p)[0] == ps[0]);
        assert(ps.push(p).drop_first() =~= ps.drop_first().push(p));
        lemma_upsert_all_push(spec_upsert_one(points, ps[0]), ps.drop_first(), p);
        assert(spec_upsert_all(points, ps.push(p)) == spec_upsert_all(
            spec_upsert_one(points, ps[0]),
            ps.drop_first().push(p),
        ));
        assert(spec_upsert_all(points, ps) == spec_upsert_all(
            spec_upsert_one(points, ps[0]),
            ps.drop_first(),
        ));
    }
}

/// A copy of an input point with the same abstract value.
fn duplicate_input(x: &VectorInput) -> (r: VectorInput)
    ensures
        input_model(r) == input_model(*x),
{
    let n = x.embedding.len();
    let mut emb: Vec<u32> = Vec::new();
    let mut i: usize = 0;
    while i < n
        invariant
            n == x.embedding@.len(),
            i <= n,
            emb@ == x.embedding@.subrange(0, i as int),
        decreases n - i,
    {
        emb.push(x.embedding[i]);
        proof {
            assert(x.embedding@.subrange(0, i as int).push(x.embedding@[i as int])
                =~= x.embedding@.subrange(0, i + 1 as int));
        }
        i = i + 1;
    }
    proof {
        assert(emb@ =~= x.embedding@);
    }
    let m = x.payload.entries.len();
    let mut ents: Vec<(String, String)> = Vec::new();
    let mut j: usize = 0;
    while j < m
        invariant
            m == x.payload.entries@.len(),
            j <= m,
            ents@ == x.payload.entries@.subrange(0, j as int),
        decreases m - j,
    {
        let e = &x.payload.entries[j];
        ents.push((e.0.clone(), e.1.clone()));
        proof {
            assert(x.payload.entries@.subrange(0, j as int).push(x.payload.entries@[j as int])
                =~= x.payload.entries@.subrange(0, j + 1 as int));
        }
        j = j + 1;
    }
    proof {
        assert(ents@ =~= x.payload.entries@);
    }
    let r = VectorInput { id: x.id, embedding: emb, payload: Payload { entries: ents } };
    proof {
        assert(r.payload.entries_view() =~= x.payload.entries_view());
    }
    r
}

/// One upsert step on a collection's entries.
fn upsert_one_exec(entries: Vec<VectorInput>, x: &VectorInput) -> (r: Vec<VectorInput>)
    ensures
        points_model(r@) == spec_upsert_one(points_model(entries@), input_model(*x)),
{
    let mut rest = entries;
    let mut out: Vec<VectorInput> = Vec::new();
    let ghost mut done: Seq<VectorInput> = Seq::empty();
    proof {
        assert(done + rest@ =~= rest@);
        assert(points_model(done) =~= Seq::<PointModel>::empty());
        assert(points_model(out@) =~= Seq::<PointModel>::empty());
        assert(points_model(done).filter(|q: PointModel| q.0 != input_model(*x).0)
            =~= Seq::<PointModel>::empty()) by {
            Seq::lemma_filter_len(
                points_model(done),
                |q: PointModel| q.0 != input_model(*x).0,
            );
        }
        assert(points_model(entries@) == points_model(done + rest@));
    }
    let ghost entries0 = done + rest@;
    while rest.len() > 0
        invariant
            done + rest@ == entries0,
            points_model(out@) == points_model(done).filter(
                |q: PointModel| q.0 != input_model(*x).0,
            ),
        decreases rest@.len(),
    {
        let ghost dpre = done;
        let ghost opre = out@;
        let e = rest.remove(0);
        let keep = e.id != x.id;
        if keep {
            out.push(e);
        }
        proof {
            let p = |q: PointModel| q.0 != input_model(*x).0;
            done = dpre.push(e);
            assert(done + rest@ =~= entries0);
            assert(points_model(done) =~= points_model(dpre).push(input_model(e)));
            assert(points_model(dpre) + seq![input_model(e)] =~= points_model(done));
            Seq::filter_distributes_over_add(points_model(dpre), seq![input_model(e)], p);
            assert(seq![input_model(e)].filter(p) =~= (if keep {
                seq![input_model(e)]
            } else {
                Seq::<PointModel>::empty()
            })) by {
                reveal_with_fuel(Seq::filter, 2);
                assert(seq![input_model(e)].drop_last() =~= Seq::<PointModel>::empty());
            }
            if keep {
                assert(points_model(out@) =~= points_model(opre).push(input_model(e)));
                assert(points_model(opre) + seq![input_model(e)] =~= points_model(out@));
            }
            assert(points_model(out@) =~= points_model(done).filter(p));
        }
    }
    proof {
        assert(done =~= entries0);
    }
    let mut out = out;
    let dup = duplicate_input(x);
    out.push(dup);
    proof {
        let p = |q: PointModel| q.0 != input_model(*x).0;
        assert(points_model(out@) =~= points_model(entries0).filter(p).push(input_model(*x)));
    }
    out
}

/// The in-memory store: a list of named collections, names unique.
pub struct MemoryStore {
    pub collections: Vec<(String, Vec<VectorInput>)>,
}

impl MemoryStore {
    /// Well-formed: collection names are pairwise distinct.
    pub open spec fn wf(self) -> bool {
        forall|i: int, j: int|
            0 <= i < j < self.collections@.len() ==> self.collections@[i].0@
                != self.collections@[j].0@
    }

    /// The abstract contents of the named collection, if it exists.
    pub open spec fn spec_collection(self, name: Seq<char>) -> Option<Seq<PointModel>> {
        coll_lookup(self.collections@, name)
    }

    pub open spec fn has_collection(self, name: Seq<char>) -> bool {
        self.spec_collection(name) is Some
    }

    /// An empty store, with no collections.
    pub fn new() -> (r: MemoryStore)
        ensures
            r.wf(),
            forall|n: Seq<char>| r.spec_collection(n) is None,
    {
        MemoryStore { collections: Vec::new() }
    }

    /// Position of the named collection, scanning in order.
    fn find_collection_index(&self, name: &str) -> (r: Option<usize>)
        ensures
            match r {
                Some(i) => {
                    &&& i < self.collections@.len()
                    &&& self.collections@[i as int].0@ == name@
                    &&& forall|j: int| 0 <= j < i ==> self.collections@[j].0@ != name@
                    &&& self.spec_collection(name@) == Some(
                        points_model(self.collections@[i as int].1@),
                    )
                },
                None => self.spec_collection(name@) is None,
            },
    {
        let n = self.collections.len();
        let ghost cs = self.collections@;
        proof {
            assert(cs.subrange(0, n as int) =~= cs);
        }
        let mut i: usize = 0;
        while i < n
            invariant
                n == cs.len(),
                cs == self.collections@,
                i <= n,
                coll_lookup(cs.subrange(i as int, n as int), name@) == coll_lookup(cs, name@),
                forall|j: int| 0 <= j < i ==> cs[j].0@ != name@,
            decreases n - i,
        {
            let ghost pre = cs.subrange(i as int, n as int);
            let e = &self.collections[i];
            if str_eq(e.0.as_str(), name) {
                proof {
                    assert(pre[0] == cs[i as int]);
                }
                return Some(i);
            }
            proof {
                assert(pre[0] == cs[i as int]);
                assert(pre.drop_first() =~= cs.subrange(i + 1 as int, n as int));
            }
            i = i + 1;
        }
        proof {
            assert(cs.subrange(n as int, n as int) =~= Seq::<(String, Vec<VectorInput>)>::empty());
        }
        None
    }

    /// Creates the collection if it does not exist; an existing collection
    /// keeps its contents. Always reports success.
    pub fn create_collection(&mut self, name: &str) -> (r: bool)
        requires
            old(self).wf(),
        ensures
            r == true,
            final(self).wf(),
            final(self).spec_collection(name@) == (match old(self).spec_collection(name@) {
                Some(v) => Some(v),
                None => Some(Seq::<PointModel>::empty()),
            }),
            forall|n: Seq<char>|
                n != name@ ==> final(self).spec_collection(n) == old(self).spec_collection(n),
    {
        match self.find_collection_index(name) {
            Some(_) => true,
            None => {
                proof {
                    lemma_lookup_none_iff(self.collections@, name@);
                }
                let ghost cpre = self.collections@;
                let fresh: Vec<VectorInput> = Vec::new();
                self.collections.push((String::from_str(name), fresh));
                proof {
                    let t = self.collections@[cpre.len() as int];
                    assert(self.collections@ =~= cpre.push(t));
                    assert(t.0@ == name@);
                    assert(points_model(t.1@) =~= Seq::<PointModel>::empty());
                    assert forall|n: Seq<char>| true implies coll_lookup(cpre.push(t), n) == (
                    match coll_lookup(cpre, n) {
                        Some(v) => Some(v),
                        None => if t.0@ == n {
                            Some(points_model(t.1@))
                        } else {
                            None
                        },
                    }) by {
                        lemma_lookup_push(cpre, t, n);
                    }
                }
                true
            },
        }
    }

    /// Deletes the named collection and everything in it; reports whether
    /// it existed.
    pub fn delete_collection(&mut self, name: &str) -> (r: bool)
        requires
            old(self).wf(),
        ensures
            final(self).wf(),
            r == old(self).has_collection(name@),
            final(self).spec_collection(name@) is None,
            forall|n: Seq<char>|
                n != name@ ==> final(self).spec_collection(n) == old(self).spec_collection(n),
    {
        match self.find_collection_index(name) {
            None => false,
            Some(i) => {
                let ghost cpre = self.collections@;
                self.collections.remove(i);
                proof {
                    cpre.remove_ensures(i as int);
                    assert(self.collections@ =~= cpre.remove(i as int));
                    lemma_lookup_remove(cpre, i as int, name@);
                }
                true
            },
        }
    }

    /// Upserts the batch into the named collection, in order: each input
    /// replaces any stored point with the same identity.
    pub fn upsert_points(&mut self, name: &str, inputs: &Vec<VectorInput>) -> (r: bool)
        requires
            old(self).wf(),
            old(self).has_collection(name@),
        ensures
            r == true,
            final(self).wf(),
            final(self).spec_collection(name@) == Some(
                spec_upsert_all(old(self).spec_collection(name@)->0, points_model(inputs@)),
            ),
            forall|n: Seq<char>|
                n != name@ ==> final(self).spec_collection(n) == old(self).spec_collection(n),
    {
        let idx = match self.find_collection_index(name) {
            Some(i) => i,
            None => {
                proof {
                    assert(false);
                }
                return true;
            },
        };
        let ghost cpre = self.collections@;
        let pair = self.collections.remove(idx);
        let (nm, entries) = pair;
        let ghost model0 = points_model(entries@);
        let mut entries = entries;
        let n = inputs.len();
        let mut k: usize = 0;
        proof {
            assert(points_model(inputs@).subrange(0, 0) =~= Seq::<PointModel>::empty());
        }
        while k < n
            invariant
                n == inputs@.len(),
                k <= n,
                points_model(entries@) == spec_upsert_all(
                    model0,
                    points_model(inputs@).subrange(0, k as int),
                ),
            decreases n - k,
        {
            let ghost donek = points_model(inputs@).subrange(0, k as int);
            entries = upsert_one_exec(entries, &inputs[k]);
            proof {
                assert(points_model(inputs@)[k as int] == input_model(inputs@[k as int]));
                assert(donek.push(points_model(inputs@)[k as int]) =~= points_model(
                    inputs@,
                ).subrange(0, k + 1 as int));
                lemma_upsert_all_push(model0, donek, points_model(inputs@)[k as int]);
            }
            k = k + 1;
        }
        proof {
            assert(points_model(inputs@).subrange(0, n as int) =~= points_model(inputs@));
        }
        self.collections.insert(idx, (nm, entries));
        proof {
            let t = self.collections@[idx as int];
            assert(self.collections@ =~= cpre.update(idx as int, t));
            assert(t.0@ == cpre[idx as int].0@);
            lemma_lookup_update(cpre, idx as int, t);
            assert(forall|j: int|
                0 <= j < cpre.len() ==> self.collections@[j].0@ == cpre[j].0@);
        }
        true
    }

    /// Looks up the point with the given identity; the result carries the
    /// stored payload and no score.
    pub fn find_by_id(&self, name: &str, id: u64) -> (r: Option<VectorOutput>)
        requires
            self.has_collection(name@),
        ensures
            match r {
                Some(out) => {
                    &&& spec_find(self.spec_collection(name@)->0, id) is Some
                    &&& out.id == (spec_find(self.spec_collection(name@)->0, id)->0).0
                    &&& out.score is None
                    &&& out.payload.entries_view() == (spec_find(
                        self.spec_collection(name@)->0,
                        id,
                    )->0).2
                },
                None => spec_find(self.spec_collection(name@)->0, id) is None,
            },
    {
        let idx = match self.find_collection_index(name) {
            Some(i) => i,
            None => {
                proof {
                    assert(false);
                }
                return None;
            },
        };
        let pair = &self.collections[idx];
        let n = pair.1.len();
        let ghost points = points_model(pair.1@);
        proof {
            assert(points.subrange(0, n as int) =~= points);
        }
        let mut i: usize = 0;
        while i < n
            invariant
                n == pair.1@.len(),
                points == points_model(pair.1@),
                points.len() == n,
                self.spec_collection(name@) == Some(points),
                i <= n,
                spec_find(points.subrange(i as int, n as int), id) == spec_find(points, id),
            decreases n - i,
        {
            let ghost pre = points.subrange(i as int, n as int);
            let e = &pair.1[i];
            if e.id == id {
                proof {
                    assert(pre[0] == points[i as int]);
                    assert(points[i as int] == input_model(pair.1@[i as int]));
                    assert(points[i as int].0 == id);
                    assert(spec_find(pre, id) == Some(pre[0]));
                }
                let dup = duplicate_input(e);
                return Some(VectorOutput { id: dup.id, score: None, payload: dup.payload });
            }
            proof {
                assert(pre[0] == points[i as int]);
                assert(points[i as int] == input_model(pair.1@[i as int]));
                assert(pre.drop_first() =~= points.subrange(i + 1 as int, n as int));
            }
            i = i + 1;
        }
        proof {
            assert(points.subrange(n as int, n as int) =~= Seq::<PointModel>::empty());
        }
        None
    }

    /// Returns every point of the named collection as an unscored result;
    /// a missing collection yields no results. The query vector and the
    /// payload filter take part only in the remote store's ranking, which
    /// this model does not reproduce.
    pub fn search_points(&self, name: &str, _query: &Vec<u32>, _required: &Payload) -> (r: Vec<
        VectorOutput,
    >)
        ensures
            match self.spec_collection(name@) {
                Some(points) => {
                    &&& r@.len() == points.len()
                    &&& forall|i: int|
                        0 <= i < points.len() ==> {
                            &&& (#[trigger] r@[i]).id == points[i].0
                            &&& r@[i].score is None
                            &&& r@[i].payload.entries_view() == points[i].2
                        }
                },
                None => r@.len() == 0,
            },
    {
        let idx = match self.find_collection_index(name) {
            Some(i) => i,
            None => {
                return Vec::new();
            },
        };
        let pair = &self.collections[idx];
        let n = pair.1.len();
        let ghost points = points_model(pair.1@);
        let mut out: Vec<VectorOutput> = Vec::new();
        let mut i: usize = 0;
        while i < n
            invariant
                n == pair.1@.len(),
                points == points_model(pair.1@),
                points.len() == n,
                i <= n,
                out@.len() == i,
                forall|j: int|
                    0 <= j < i ==> {
                        &&& (#[trigger] out@[j]).id == points[j].0
                        &&& out@[j].score is None
                        &&& out@[j].payload.entries_view() == points[j].2
                    },
            decreases n - i,
        {
            let e = &pair.1[i];
            let dup = duplicate_input(e);
            out.push(VectorOutput { id: dup.id, score: None, payload: dup.payload });
            proof {
                assert(points[i as int] == input_model(pair.1@[i as int]));
            }
            i = i + 1;
        }
        out
    }
}

} // verus!

