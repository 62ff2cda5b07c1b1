//! The ingestion coordinator and the query service over the in-memory
//! store: planning a chunk (which files still need indexing), committing a
//! chunk (pairing tasks with embeddings and upserting), the idempotence law
//! of running the pipeline twice, and the query-side outcome decision.

use vstd::prelude::*;
use crate::batch::{
    build_inputs, evaluate_file, payload_matches_task, EmbeddingTask, FileEntry,
};
use crate::hash::{generate_hash, path_content_id};
use crate::models::{lookup_view, VectorOutput};
use crate::store::{
    input_model, points_model, spec_find, spec_upsert_all, spec_upsert_one, MemoryStore,
    PointModel,
};
use crate::text::{contains_seq, matches_at};

verus! {

/// Whether the stored point with this identity already carries the given
/// description in its payload.
pub open spec fn model_description_matches(
    points: Seq<PointModel>,
    id: u64,
    desc: Seq<char>,
) -> bool {
    match spec_find(points, id) {
        Some(p) => match lookup_view(p.2, "description"@) {
            Some(stored) => contains_seq(stored, desc),
            None => false,
        },
        None => false,
    }
}

/// The decision for one file against the collection contents: no stored
/// description means no task; an indexed point already carrying the
/// description means no task; otherwise a pending task.
pub open spec fn spec_eval(f: FileEntry, points: Seq<PointModel>) -> Option<EmbeddingTask> {
    match f.description {
        Some(d) => if model_description_matches(points, path_content_id(f.path@), d@) {
            None
        } else {
            Some(EmbeddingTask { id: path_content_id(f.path@), description: d, path: f.path })
        },
        None => None,
    }
}

/// The pending tasks of a chunk, in file order.
pub open spec fn spec_plan(files: Seq<FileEntry>, points: Seq<PointModel>) -> Seq<EmbeddingTask>
    decreases files.len(),
{
    if files.len() == 0 {
        Seq::empty()
    } else {
        (match spec_eval(files[0], points) {
            Some(t) => seq![t],
            None => Seq::empty(),
        }) + spec_plan(files.drop_first(), points)
    }
}

/// Plans one chunk: probes the store for each file's identity and keeps
/// exactly the files that still need indexing, in order.
pub fn plan_chunk(store: &MemoryStore, collection: &str, files: &Vec<FileEntry>) -> (r: Vec<
    EmbeddingTask,
>)
    requires
        store.has_collection(collection@),
    ensures
        r@ == spec_plan(files@, store.spec_collection(collection@)->0),
{
    let ghost points = store.spec_collection(collection@)->0;
    let n = files.len();
    let mut out: Vec<EmbeddingTask> = Vec::new();
    let mut i: usize = 0;
    proof {
        assert(files@.skip(0) =~= files@);
        assert(out@ + spec_plan(files@.skip(0), points) =~= spec_plan(files@, points));
    }
    while i < n
        invariant
            n == files@.len(),
            store.has_collection(collection@),
            points == store.spec_collection(collection@)->0,
            i <= n,
            out@ + spec_plan(files@.skip(i as int), points) == spec_plan(files@, points),
        decreases n - i,
    {
        let ghost rest = files@.skip(i as int);
        let ghost opre = out@;
        let f = &files[i];
        let id = generate_hash(f.path.as_str());
        let existing = store.find_by_id(collection, id);
        let decision = evaluate_file(&f.path, &f.description, &existing);
        proof {
            assert(rest[0] == files@[i as int]);
            assert(rest.drop_first() =~= files@.skip(i + 1));
            match existing {
                Some(out_found) => {
                    assert(spec_find(points, id) is Some);
                    assert(out_found.payload.entries_view() == (spec_find(points, id)->0).2);
                },
                None => {
                    assert(spec_find(points, id) is None);
                },
            }
            if f.description is Some {
                let d = f.description->0;
                assert(crate::batch::stored_description_matches(existing, d@)
                    == model_description_matches(points, id, d@));
            }
        }
        match decision {
            Some(t) => {
                out.push(t);
                proof {
                    assert(spec_eval(files@[i as int], points) is Some);
                    let st = spec_eval(files@[i as int], points)->0;
                    assert(out@.last() == st);
                    assert(out@ =~= opre.push(st));
                    assert(spec_plan(rest, points) == seq![st] + spec_plan(
                        files@.skip(i + 1),
                        points,
                    ));
                    assert(out@ + spec_plan(files@.skip(i + 1), points) =~= opre + spec_plan(
                        rest,
                        points,
                    ));
                }
            },
            None => {
                proof {
                    assert(spec_eval(files@[i as int], points) is None);
                    assert(spec_plan(rest, points) == spec_plan(files@.skip(i + 1), points));
                }
            },
        }
        i = i + 1;
    }
    proof {
        assert(files@.skip(n as int) =~= Seq::<FileEntry>::empty());
        assert(out@ + Seq::<EmbeddingTask>::empty() =~= out@);
    }
    out
}

/// The abstract values of the points a committed chunk writes: one per
/// task, carrying the task's identity, the embedding at the same position,
/// and a payload whose description is the task's description.
pub open spec fn input_points_match(
    ps: Seq<PointModel>,
    tasks: Seq<EmbeddingTask>,
    embeddings: Seq<Vec<u32>>,
) -> bool {
    &&& ps.len() == tasks.len()
    &&& forall|i: int|
        0 <= i < ps.len() ==> {
            &&& (#[trigger] ps[i]).0 == tasks[i].id
            &&& ps[i].1 == embeddings[i]@
            &&& lookup_view(ps[i].2, "description"@) == Some(tasks[i].description@)
            &&& lookup_view(ps[i].2, "path"@) == Some(tasks[i].path@)
            &&& lookup_view(ps[i].2, "folder"@) == Some(
                crate::paths::folder_name_of(tasks[i].path@),
            )
        }
}

/// Commits one chunk: pairs task `i` with embedding `i`, builds one point
/// per task, and upserts the whole batch into the collection.
pub fn commit_chunk(
    store: &mut MemoryStore,
    collection: &str,
    tasks: Vec<EmbeddingTask>,
    embeddings: Vec<Vec<u32>>,
) -> (r: bool)
    requires
        old(store).wf(),
        old(store).has_collection(collection@),
        tasks@.len() == embeddings@.len(),
    ensures
        r == true,
        final(store).wf(),
        final(store).has_collection(collection@),
        exists|ps: Seq<PointModel>|
            {
                &&& #[trigger] input_points_match(ps, tasks@, embeddings@)
                &&& final(store).spec_collection(collection@) == Some(
                    spec_upsert_all(old(store).spec_collection(collection@)->0, ps),
                )
            },
        forall|n: Seq<char>|
            n != collection@ ==> final(store).spec_collection(n) == old(store).spec_collection(n),
{
    let ghost tasks0 = tasks@;
    let ghost embs0 = embeddings@;
    let inputs = build_inputs(tasks, embeddings);
    let r = store.upsert_points(collection, &inputs);
    proof {
        let ps = points_model(inputs@);
        assert forall|i: int| 0 <= i < ps.len() implies {
            &&& (#[trigger] ps[i]).0 == tasks0[i].id
            &&& ps[i].1 == embs0[i]@
            &&& lookup_view(ps[i].2, "description"@) == Some(tasks0[i].description@)
            &&& lookup_view(ps[i].2, "path"@) == Some(tasks0[i].path@)
            &&& lookup_view(ps[i].2, "folder"@) == Some(
                crate::paths::folder_name_of(tasks0[i].path@),
            )
        } by {
            assert(ps[i] == input_model(inputs@[i]));
            assert(payload_matches_task(inputs@[i].payload, tasks0[i]));
        }
        assert(input_points_match(ps, tasks0, embs0));
    }
    r
}

/// A corpus on which one ingestion run settles the store: a path that
/// appears twice carries the same stored description both times, and
/// distinct paths have distinct content identities.
pub open spec fn corpus_consistent(files: Seq<FileEntry>) -> bool {
    forall|i: int, j: int|
        0 <= i < files.len() && 0 <= j < files.len() ==> {
            &&& ((#[trigger] files[i]).path@ == (#[trigger] files[j]).path@
                ==> files[i].description.deep_view() == files[j].description.deep_view())
            &&& (path_content_id(files[i].path@) == path_content_id(files[j].path@)
                ==> files[i].path@ == files[j].path@)
        }
}

proof fn lemma_find_push(points: Seq<PointModel>, p: PointModel, id: u64)
    ensures
        spec_find(points.push(p), id) == (if spec_find(points, id) is Some {
            spec_find(points, id)
        } else if p.0 == id {
            Some(p)
        } else {
            None
        }),
    decreases points.len(),
{
    reveal_with_fuel(spec_find, 3);
    if points.len() == 0 {
        assert(points.push(p) =~= seq![p]);
        assert(points.push(p)[0] == p);
        assert(points.push(p).drop_first() =~= Seq::<PointModel>::empty());
        if p.0 == id {
            assert(spec_find(points.push(p), id) == Some(p));
        } else {
            assert(spec_find(points.push(p), id) is None);
        }
    } else {
        assert(points.push(p)[0] == points[0]);
        assert(points.push(p).drop_first() =~= points.drop_first().push(p));
        lemma_find_push(points.drop_first(), p, id);
        if points[0].0 == id {
            assert(spec_find(points.push(p), id) == Some(points[0]));
            assert(spec_find(points, id) == Some(points[0]));
        } else {
            assert(spec_find(points.push(p), id) == spec_find(points.drop_first().push(p), id));
            assert(spec_find(points, id) == spec_find(points.drop_first(), id));
        }
    }
}

proof fn lemma_find_none_iff(points: Seq<PointModel>, id: u64)
    ensures
        spec_find(points, id) is None <==> (forall|j: int|
            0 <= j < points.len() ==> (#[trigger] points[j]).0 != id),
    decreases points.len(),
{
    if points.len() > 0 {
        lemma_find_none_iff(points.drop_first(), id);
        if spec_find(points, id) is None {
            assert forall|j: int| 0 <= j < points.len() implies (#[trigger] points[j]).0 != id by {
                if j > 0 {
                    assert(points.drop_first()[j - 1] == points[j]);
                }
            }
        }
        if forall|j: int| 0 <= j < points.len() ==> (#[trigger] points[j]).0 != id {
            assert forall|j: int|
                0 <= j < points.drop_first().len() implies (#[trigger] points.drop_first()[j]).0
                != id by {
                assert(points.drop_first()[j] == points[j + 1]);
            }
            assert(spec_find(points.drop_first(), id) is None);
        }
    }
}

proof fn lemma_find_filter(points: Seq<PointModel>, p: PointModel, id: u64)
    requires
        id != p.0,
    ensures
        spec_find(points.filter(|q: PointModel| q.0 != p.0), id) == spec_find(points, id),
    decreases points.len(),
{
    reveal(Seq::filter);
    let pred = |q: PointModel| q.0 != p.0;
    if points.len() == 0 {
        assert(points.filter(pred) =~= Seq::<PointModel>::empty());
    } else {
        let s1 = points.drop_last();
        let z = points.last();
        lemma_find_filter(s1, p, id);
        assert(points =~= s1.push(z));
        lemma_find_push(s1, z, id);
        assert(spec_find(points, id) == spec_find(s1.push(z), id));
        if pred(z) {
            assert(points.filter(pred) == s1.filter(pred).push(z));
            lemma_find_push(s1.filter(pred), z, id);
        } else {
            assert(points.filter(pred) == s1.filter(pred));
            assert(z.0 == p.0);
        }
    }
}

/// Whether some point of `ps` carries the identity `id`.
pub open spec fn has_id(ps: Seq<PointModel>, id: u64) -> bool {
    exists|k: int| 0 <= k < ps.len() && (#[trigger] ps[k]).0 == id
}

/// Index of the last point of `ps` with identity `id`, or `-1`.
pub open spec fn last_id_index(ps: Seq<PointModel>, id: u64) -> int
    decreases ps.len(),
{
    if ps.len() == 0 {
        -1
    } else if has_id(ps.drop_first(), id) {
        1 + last_id_index(ps.drop_first(), id)
    } else if ps[0].0 == id {
        0
    } else {
        -1
    }
}

proof fn lemma_last_id_index(ps: Seq<PointModel>, id: u64)
    requires
        has_id(ps, id),
    ensures
        0 <= last_id_index(ps, id) < ps.len(),
        ps[last_id_index(ps, id)].0 == id,
    decreases ps.len(),
{
    if has_id(ps.drop_first(), id) {
        lemma_last_id_index(ps.drop_first(), id);
        assert(ps.drop_first()[last_id_index(ps.drop_first(), id)] == ps[1 + last_id_index(
            ps.drop_first(),
            id,
        )]);
    } else {
        let k = choose|k: int| 0 <= k < ps.len() && (#[trigger] ps[k]).0 == id;
        if k > 0 {
            assert(ps.drop_first()[k - 1] == ps[k]);
            assert(has_id(ps.drop_first(), id));
        }
        assert(ps[0].0 == id);
    }
}

proof fn lemma_find_upsert_all_no_id(points: Seq<PointModel>, ps: Seq<PointModel>, id: u64)
    requires
        forall|k: int| 0 <= k < ps.len() ==> (#[trigger] ps[k]).0 != id,
    ensures
        spec_find(spec_upsert_all(points, ps), id) == spec_find(points, id),
    decreases ps.len(),
{
    if ps.len() > 0 {
        let p0 = ps[0];
        lemma_find_filter(points, p0, id);
        lemma_find_push(points.filter(|q: PointModel| q.0 != p0.0), p0, id);
        assert(spec_find(spec_upsert_one(points, p0), id) == spec_find(points, id));
        assert forall|k: int|
            0 <= k < ps.drop_first().len() implies (#[trigger] ps.drop_first()[k]).0 != id by {
            assert(ps.drop_first()[k] == ps[k + 1]);
        }
        lemma_find_upsert_all_no_id(spec_upsert_one(points, p0), ps.drop_first(), id);
    }
}

proof fn lemma_find_upsert_all_with_id(points: Seq<PointModel>, ps: Seq<PointModel>, id: u64)
    requires
        has_id(ps, id),
    ensures
        ({
            let m = last_id_index(ps, id);
            &&& 0 <= m < ps.len()
            &&& ps[m].0 == id
            &&& spec_find(spec_upsert_all(points, ps), id) == Some(ps[m])
        }),
    decreases ps.len(),
{
    lemma_last_id_index(ps, id);
    let p0 = ps[0];
    let next = spec_upsert_one(points, p0);
    if has_id(ps.drop_first(), id) {
        lemma_find_upsert_all_with_id(next, ps.drop_first(), id);
        assert(ps.drop_first()[last_id_index(ps.drop_first(), id)] == ps[1 + last_id_index(
            ps.drop_first(),
            id,
        )]);
    } else {
        assert(last_id_index(ps, id) == 0);
        assert(p0.0 == id);
        let fpred = |q: PointModel| q.0 != p0.0;
        assert forall|j: int|
            0 <= j < points.filter(fpred).len() implies (#[trigger] points.filter(fpred)[j]).0
            != id by {
            points.lemma_filter_pred(fpred, j);
        }
        lemma_find_none_iff(points.filter(fpred), id);
        lemma_find_push(points.filter(fpred), p0, id);
        assert(spec_find(next, id) == Some(p0));
        assert forall|k: int|
            0 <= k < ps.drop_first().len() implies (#[trigger] ps.drop_first()[k]).0 != id by {
            if ps.drop_first()[k].0 == id {
                assert(has_id(ps.drop_first(), id));
            }
        }
        lemma_find_upsert_all_no_id(next, ps.drop_first(), id);
    }
}

proof fn lemma_plan_member(files: Seq<FileEntry>, points: Seq<PointModel>, k: int)
    requires
        0 <= k < spec_plan(files, points).len(),
    ensures
        exists|j: int|
            0 <= j < files.len() && spec_eval(#[trigger] files[j], points) == Some(
                spec_plan(files, points)[k],
            ),
    decreases files.len(),
{
    let head: Seq<EmbeddingTask> = match spec_eval(files[0], points) {
        Some(t) => seq![t],
        None => Seq::empty(),
    };
    assert(spec_plan(files, points) == head + spec_plan(files.drop_first(), points));
    if k < head.len() {
        assert(spec_plan(files, points)[k] == head[0]);
        assert(spec_eval(files[0], points) == Some(spec_plan(files, points)[k]));
    } else {
        assert(spec_plan(files, points)[k] == spec_plan(files.drop_first(), points)[k
            - head.len()]);
        lemma_plan_member(files.drop_first(), points, k - head.len());
        let j = choose|j: int|
            0 <= j < files.drop_first().len() && spec_eval(
                #[trigger] files.drop_first()[j],
                points,
            ) == Some(spec_plan(files.drop_first(), points)[k - head.len()]);
        assert(files.drop_first()[j] == files[j + 1]);
    }
}

proof fn lemma_plan_contains(files: Seq<FileEntry>, points: Seq<PointModel>, i: int)
    requires
        0 <= i < files.len(),
        spec_eval(files[i], points) is Some,
    ensures
        exists|k: int|
            0 <= k < spec_plan(files, points).len() && #[trigger] spec_plan(files, points)[k]
                == spec_eval(files[i], points)->0,
    decreases files.len(),
{
    let head: Seq<EmbeddingTask> = match spec_eval(files[0], points) {
        Some(t) => seq![t],
        None => Seq::empty(),
    };
    assert(spec_plan(files, points) == head + spec_plan(files.drop_first(), points));
    if i == 0 {
        assert(spec_plan(files, points)[0] == spec_eval(files[0], points)->0);
    } else {
        assert(files.drop_first()[i - 1] == files[i]);
        lemma_plan_contains(files.drop_first(), points, i - 1);
        let k = choose|k: int|
            0 <= k < spec_plan(files.drop_first(), points).len() && #[trigger] spec_plan(
                files.drop_first(),
                points,
            )[k] == spec_eval(files.drop_first()[i - 1], points)->0;
        assert(spec_plan(files, points)[head.len() + k] == spec_plan(
            files.drop_first(),
            points,
        )[k]);
    }
}

proof fn lemma_plan_empty(files: Seq<FileEntry>, points: Seq<PointModel>)
    requires
        forall|i: int| 0 <= i < files.len() ==> spec_eval(#[trigger] files[i], points) is None,
    ensures
        spec_plan(files, points) =~= Seq::<EmbeddingTask>::empty(),
    decreases files.len(),
{
    if files.len() > 0 {
        assert(spec_eval(files[0], points) is None);
        assert forall|i: int|
            0 <= i < files.drop_first().len() implies spec_eval(
            #[trigger] files.drop_first()[i],
            points,
        ) is None by {
            assert(files.drop_first()[i] == files[i + 1]);
        }
        lemma_plan_empty(files.drop_first(), points);
        assert(spec_plan(files, points) =~= Seq::<EmbeddingTask>::empty() + spec_plan(
            files.drop_first(),
            points,
        ));
    }
}

/// Idempotence of ingestion: after committing the points planned for a
/// consistent corpus, planning the same corpus again yields no pending
/// tasks — the second run performs no embedding call and no upsert. The
/// law asks that distinct paths have distinct content identities; a hash
/// collision between two distinct paths is outside it.
pub proof fn lemma_ingest_idempotent(
    files: Seq<FileEntry>,
    points: Seq<PointModel>,
    ps: Seq<PointModel>,
    embeddings: Seq<Vec<u32>>,
)
    requires
        corpus_consistent(files),
        input_points_match(ps, spec_plan(files, points), embeddings),
    ensures
        spec_plan(files, spec_upsert_all(points, ps)) =~= Seq::<EmbeddingTask>::empty(),
{
    let plan0 = spec_plan(files, points);
    let points1 = spec_upsert_all(points, ps);
    assert forall|i: int|
        0 <= i < files.len() implies spec_eval(#[trigger] files[i], points1) is None by {
        let f = files[i];
        if f.description is Some {
            let d = f.description->0;
            let id = path_content_id(f.path@);
            if spec_eval(f, points) is None {
                assert(model_description_matches(points, id, d@));
                assert forall|k: int| 0 <= k < ps.len() implies (#[trigger] ps[k]).0 != id by {
                    if ps[k].0 == id {
                        assert(plan0[k].id == id);
                        lemma_plan_member(files, points, k);
                        let j = choose|j: int|
                            0 <= j < files.len() && spec_eval(#[trigger] files[j], points) == Some(
                                plan0[k],
                            );
                        assert(plan0[k].id == path_content_id(files[j].path@));
                        assert(files[j].path@ == f.path@);
                        assert(files[j].description.deep_view() == f.description.deep_view());
                        assert(files[j].description is Some);
                        assert(files[j].description->0@ == d@);
                        assert(model_description_matches(points, id, files[j].description->0@));
                        assert(spec_eval(files[j], points) is None);
                    }
                }
                lemma_find_upsert_all_no_id(points, ps, id);
                assert(model_description_matches(points1, id, d@));
            } else {
                let t = spec_eval(f, points)->0;
                assert(t.id == id);
                lemma_plan_contains(files, points, i);
                let k = choose|k: int|
                    0 <= k < plan0.len() && #[trigger] plan0[k] == spec_eval(files[i], points)->0;
                assert(ps[k].0 == plan0[k].id);
                assert(ps[k].0 == id);
                assert(has_id(ps, id));
                lemma_find_upsert_all_with_id(points, ps, id);
                let m = last_id_index(ps, id);
                assert(spec_find(points1, id) == Some(ps[m]));
                assert(ps[m].0 == plan0[m].id);
                assert(plan0[m].id == id);
                lemma_plan_member(files, points, m);
                let j = choose|j: int|
                    0 <= j < files.len() && spec_eval(#[trigger] files[j], points) == Some(
                        plan0[m],
                    );
                assert(plan0[m].id == path_content_id(files[j].path@));
                assert(files[j].path@ == f.path@);
                assert(files[j].description.deep_view() == f.description.deep_view());
                assert(files[j].description is Some);
                assert(plan0[m].description == files[j].description->0);
                assert(plan0[m].description@ == d@);
                assert(lookup_view(ps[m].2, "description"@) == Some(d@));
                assert(contains_seq(d@, d@)) by {
                    assert(d@.subrange(0, d@.len() as int) =~= d@);
                    assert(matches_at(d@, d@, 0));
                }
                assert(model_description_matches(points1, id, d@));
            }
        }
    }
    lemma_plan_empty(files, points1);
}

/// What the query service does with the ranked results: an empty list is
/// reported as having no matching documents and the summarizer is not to
/// be invoked; otherwise the stored descriptions are handed on, in order.
pub enum QueryOutcome {
    NoMatches,
    Summarize(Vec<String>),
}

/// Decides the query outcome from the (already ranked) results.
pub fn prepare_query_response(results: &Vec<VectorOutput>) -> (r: QueryOutcome)
    ensures
        match r {
            QueryOutcome::NoMatches => results@.len() == 0,
            QueryOutcome::Summarize(ds) => {
                &&& results@.len() > 0
                &&& ds@.len() == results@.len()
                &&& forall|i: int|
                    0 <= i < results@.len() ==> ds@[i]@ == crate::models::description_of(
                        #[trigger] results@[i],
                    )
            },
        },
{
    if results.len() == 0 {
        QueryOutcome::NoMatches
    } else {
        QueryOutcome::Summarize(crate::models::project_descriptions(results))
    }
}

} // verus!
