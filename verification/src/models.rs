//! Data model of the pipeline: string payloads, vector points, search
//! results, and the ranking and filtering rules of the query service.
//!
//! Embedding vectors and similarity scores travel through this library as
//! the bit patterns of the provider's floating-point values, held in `u32`
//! form; an order-preserving encoding at the boundary keeps the ranking
//! rules exact.

use vstd::prelude::*;
use crate::text::str_eq;

verus! {

/// A string-keyed, string-valued payload attached to a stored point.
/// Lookup returns the first entry with the given key.
pub struct Payload {
    pub entries: Vec<(String, String)>,
}

/// First-match lookup in an association list of key and value views.
pub open spec fn lookup_view(entries: Seq<(Seq<char>, Seq<char>)>, key: Seq<char>) -> Option<
    Seq<char>,
>
    decreases entries.len(),
{
    if entries.len() == 0 {
        None
    } else if entries[0].0 == key {
        Some(entries[0].1)
    } else {
        lookup_view(entries.drop_first(), key)
    }
}

impl Payload {
    /// The entries as key and value character sequences, in order.
    pub open spec fn entries_view(self) -> Seq<(Seq<char>, Seq<char>)> {
        self.entries@.map_values(|e: (String, String)| (e.0@, e.1@))
    }

    /// The value stored under `key`, if any.
    pub open spec fn spec_get(self, key: Seq<char>) -> Option<Seq<char>> {
        lookup_view(self.entries_view(), key)
    }

    pub fn new() -> (r: Payload)
        ensures
            r.entries@.len() == 0,
    {
        Payload { entries: Vec::new() }
    }

    /// Appends an entry; an earlier entry with the same key keeps priority.
    pub fn insert(&mut self, key: String, value: String)
        ensures
            final(self).entries@ == old(self).entries@.push((key, value)),
    {
        self.entries.push((key, value));
    }

    /// The value stored under `key`, cloned out of the payload.
    pub fn get(&self, key: &str) -> (r: Option<String>)
        ensures
            match r {
                Some(v) => self.spec_get(key@) == Some(v@),
                None => self.spec_get(key@) is None,
            },
    {
        let n = self.entries.len();
        let ghost ev = self.entries_view();
        proof {
            assert(ev.subrange(0, n as int) =~= ev);
        }
        let mut i: usize = 0;
        while i < n
            invariant
                n == self.entries@.len(),
                ev == self.entries_view(),
                ev.len() == n,
                i <= n,
                lookup_view(ev.subrange(i as int, n as int), key@) == lookup_view(ev, key@),
            decreases n - i,
        {
            let ghost pre = ev.subrange(i as int, n as int);
            let e = &self.entries[i];
            if str_eq(e.0.as_str(), key) {
                proof {
                    assert(pre[0] == ev[i as int]);
                    assert(ev[i as int] == (self.entries@[i as int].0@, self.entries@[i as int].1@));
                }
                return Some(e.1.clone());
            }
            proof {
                assert(pre[0] == ev[i as int]);
                assert(ev[i as int] == (self.entries@[i as int].0@, self.entries@[i as int].1@));
                assert(pre.drop_first() =~= ev.subrange(i + 1 as int, n as int));
            }
            i = i + 1;
        }
        proof {
            assert(ev.subrange(n as int, n as int) =~= Seq::<(Seq<char>, Seq<char>)>::empty());
        }
        None
    }
}

/// A point written to the vector store: identity, embedding bits, payload.
pub struct VectorInput {
    pub id: u64,
    pub embedding: Vec<u32>,
    pub payload: Payload,
}

impl VectorInput {
    pub fn new(id: u64, embedding: Vec<u32>, payload: Payload) -> (r: VectorInput)
        ensures
            r.id == id,
            r.embedding == embedding,
            r.payload == payload,
    {
        VectorInput { id, embedding, payload }
    }
}

/// A search or lookup result: identity, optional score bits, payload.
pub struct VectorOutput {
    pub id: u64,
    pub score: Option<u32>,
    pub payload: Payload,
}

pub type VectorOutputList = Vec<VectorOutput>;

/// Descending-rank order on optional scores: any present score outranks an
/// absent one, and present scores compare by value.
pub open spec fn score_ge(a: Option<u32>, b: Option<u32>) -> bool {
    match (a, b) {
        (Some(x), Some(y)) => x >= y,
        (Some(x), None) => true,
        (None, None) => true,
        (None, Some(y)) => false,
    }
}

/// `a` ranks at least as high as `b`.
pub open spec fn ranked_ge(a: VectorOutput, b: VectorOutput) -> bool {
    score_ge(a.score, b.score)
}

/// The list is in descending rank order; results without a score follow
/// every scored result.
pub open spec fn sorted_desc(s: Seq<VectorOutput>) -> bool {
    forall|i: int, j: int| 0 <= i < j < s.len() ==> #[trigger] ranked_ge(s[i], s[j])
}

/// Executable comparison matching [`score_ge`].
fn score_ge_exec(a: &Option<u32>, b: &Option<u32>) -> (r: bool)
    ensures
        r == score_ge(*a, *b),
{
    match (a, b) {
        (Some(x), Some(y)) => *x >= *y,
        (Some(_), None) => true,
        (None, None) => true,
        (None, Some(_)) => false,
    }
}

/// Index of a result ranking at least as high as every element of `list`.
fn max_rank_index(list: &Vec<VectorOutput>) -> (r: usize)
    requires
        list@.len() > 0,
    ensures
        r < list@.len(),
        forall|m: int| 0 <= m < list@.len() ==> ranked_ge(list@[r as int], list@[m]),
{
    let n = list.len();
    let mut best: usize = 0;
    let mut i: usize = 1;
    while i < n
        invariant
            n == list@.len(),
            best < i <= n || (best == 0 && i <= n),
            best < n,
            forall|m: int| 0 <= m < i ==> ranked_ge(list@[best as int], list@[m]),
        decreases n - i,
    {
        if !score_ge_exec(&list[best].score, &list[i].score) {
            best = i;
            assert(forall|m: int| 0 <= m < i + 1 ==> ranked_ge(list@[best as int], list@[m]));
        }
        i = i + 1;
    }
    best
}

/// Sorts the results into descending rank order: highest score first,
/// results without a score after all scored ones. The output is a
/// permutation of the input.
pub fn sort_by_score(list: &mut Vec<VectorOutput>)
    ensures
        final(list)@.len() == old(list)@.len(),
        final(list)@.to_multiset() == old(list)@.to_multiset(),
        sorted_desc(final(list)@),
{
    let mut out: Vec<VectorOutput> = Vec::new();
    proof {
        broadcast use vstd::multiset::group_multiset_axioms;
        out@.to_multiset_ensures();
        assert(forall|a: VectorOutput| #[trigger] out@.to_multiset().count(a) == 0) by {
            assert(forall|a: VectorOutput| !out@.contains(a));
        }
        assert(out@.to_multiset().add(list@.to_multiset()) =~= list@.to_multiset());
    }
    while list.len() > 0
        invariant
            out@.to_multiset().add(list@.to_multiset()) == old(list)@.to_multiset(),
            out@.len() + list@.len() == old(list)@.len(),
            sorted_desc(out@),
            forall|a: int, b: int|
                0 <= a < out@.len() && 0 <= b < list@.len() ==> #[trigger] ranked_ge(
                    out@[a],
                    list@[b],
                ),
        decreases list@.len(),
    {
        let ghost lpre = list@;
        let ghost opre = out@;
        let best = max_rank_index(list);
        let x = list.remove(best);
        out.push(x);
        proof {
            vstd::seq_lib::to_multiset_remove(lpre, best as int);
            vstd::seq_lib::to_multiset_build(opre, x);
            assert(lpre.remove(best as int).to_multiset() =~= lpre.to_multiset().remove(x));
            assert(opre.push(x).to_multiset() =~= opre.to_multiset().insert(x));
            assert(lpre.to_multiset().count(x) >= 1) by {
                lpre.to_multiset_ensures();
                assert(lpre[best as int] == x);
                assert(lpre.contains(x));
            }
            assert(out@.to_multiset().add(list@.to_multiset()) =~= opre.to_multiset().add(
                lpre.to_multiset(),
            ));
            assert(forall|b: int|
                0 <= b < list@.len() ==> exists|c: int|
                    0 <= c < lpre.len() && lpre[c] == #[trigger] list@[b]);
        }
    }
    proof {
        broadcast use vstd::multiset::group_multiset_axioms;
        list@.to_multiset_ensures();
        assert(forall|a: VectorOutput| #[trigger] list@.to_multiset().count(a) == 0) by {
            assert(forall|a: VectorOutput| !list@.contains(a));
        }
        assert(out@.to_multiset().add(list@.to_multiset()) =~= out@.to_multiset());
    }
    *list = out;
}

/// A result passes the threshold when it has a score strictly above it.
pub open spec fn above_threshold(o: VectorOutput, t: u32) -> bool {
    match o.score {
        Some(s) => s > t,
        None => false,
    }
}

/// Keeps exactly the results whose score is present and strictly above the
/// threshold, in their original order.
pub fn limit_results(list: &mut Vec<VectorOutput>, threshold: u32)
    ensures
        final(list)@ == old(list)@.filter(|o: VectorOutput| above_threshold(o, threshold)),
{
    let mut out: Vec<VectorOutput> = Vec::new();
    let ghost mut done: Seq<VectorOutput> = Seq::empty();
    proof {
        assert(done + list@ =~= old(list)@);
        reveal_with_fuel(Seq::filter, 2);
    }
    while list.len() > 0
        invariant
            done + list@ == old(list)@,
            out@ == done.filter(|o: VectorOutput| above_threshold(o, threshold)),
        decreases list@.len(),
    {
        let ghost dpre = done;
        let ghost lpre = list@;
        let x = list.remove(0);
        let keep = match &x.score {
            Some(s) => *s > threshold,
            None => false,
        };
        if keep {
            out.push(x);
        }
        proof {
            done = dpre.push(x);
            assert(lpre.remove(0) =~= lpre.drop_first());
            assert(done + list@ =~= old(list)@);
            assert(seq![x].filter(|o: VectorOutput| above_threshold(o, threshold)) =~= (if keep {
                seq![x]
            } else {
                Seq::<VectorOutput>::empty()
            })) by {
                reveal_with_fuel(Seq::filter, 2);
                assert(seq![x].drop_last() =~= Seq::<VectorOutput>::empty());
            }
            assert(dpre + seq![x] =~= done);
            Seq::filter_distributes_over_add(
                dpre,
                seq![x],
                |o: VectorOutput| above_threshold(o, threshold),
            );
            assert(out@ == done.filter(|o: VectorOutput| above_threshold(o, threshold)));
        }
    }
    proof {
        assert(done =~= old(list)@);
    }
    *list = out;
}

/// The description field projected from a result's payload, or the empty
/// string when the payload has none.
pub open spec fn description_of(o: VectorOutput) -> Seq<char> {
    match o.payload.spec_get("description"@) {
        Some(d) => d,
        None => Seq::empty(),
    }
}

/// Projects each result's stored description, in order; results without a
/// description project to the empty string.
pub fn project_descriptions(list: &Vec<VectorOutput>) -> (r: Vec<String>)
    ensures
        r@.len() == list@.len(),
        forall|i: int| 0 <= i < list@.len() ==> r@[i]@ == description_of(#[trigger] list@[i]),
{
    let n = list.len();
    let mut out: Vec<String> = Vec::new();
    let mut i: usize = 0;
    while i < n
        invariant
            n == list@.len(),
            i <= n,
            out@.len() == i,
            forall|j: int| 0 <= j < i ==> out@[j]@ == description_of(#[trigger] list@[j]),
        decreases n - i,
    {
        let d = match list[i].payload.get("description") {
            Some(d) => d,
            None => String::new(),
        };
        out.push(d);
        i = i + 1;
    }
    out
}

} // verus!
