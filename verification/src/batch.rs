//! Batch planning: the per-file decision of the ingestion coordinator, the
//! partition of a corpus into fixed-size chunks, the positional pairing of
//! pending tasks with their embedding vectors, and the payload built for
//! each stored point.

use vstd::prelude::*;
use vstd::string::*;
use crate::hash::{generate_hash, path_content_id};
use crate::models::{lookup_view, Payload, VectorInput, VectorOutput};
use crate::paths::{folder_name, folder_name_of};
use crate::text::{contains_chars, contains_seq, to_chars};

verus! {

/// A file seen by the scanner, with the description read from its metadata.
pub struct FileEntry {
    pub path: String,
    pub description: Option<String>,
}

/// A pending unit of work: a file whose description must be embedded and
/// indexed.
pub struct EmbeddingTask {
    pub id: u64,
    pub description: String,
    pub path: String,
}

/// The payload stored with a task's point: the file's path, its full
/// description, and the parent directory name as a location hint.
pub open spec fn payload_matches_task(p: Payload, t: EmbeddingTask) -> bool {
    &&& p.spec_get("path"@) == Some(t.path@)
    &&& p.spec_get("description"@) == Some(t.description@)
    &&& p.spec_get("folder"@) == Some(folder_name_of(t.path@))
}

/// Builds the payload for one pending task.
pub fn build_payload(task: &EmbeddingTask) -> (p: Payload)
    ensures
        payload_matches_task(p, *task),
{
    let mut p = Payload::new();
    let ghost e0 = p.entries@;
    p.insert(String::from_str("path"), task.path.clone());
    p.insert(String::from_str("description"), task.description.clone());
    p.insert(String::from_str("folder"), folder_name(task.path.as_str()));
    proof {
        reveal_strlit("path");
        reveal_strlit("description");
        reveal_strlit("folder");
        reveal_with_fuel(lookup_view, 4);
        assert(p.entries_view() =~= seq![
            ("path"@, task.path@),
            ("description"@, task.description@),
            ("folder"@, folder_name_of(task.path@)),
        ]);
        assert("path"@.len() == 4);
        assert("description"@.len() == 11);
        assert("folder"@.len() == 6);
    }
    p
}

/// Whether a stored search result already carries this description: its
/// payload's description field contains the fresh description as a
/// substring.
pub open spec fn stored_description_matches(existing: Option<VectorOutput>, desc: Seq<char>) -> bool {
    match existing {
        Some(out) => match lookup_view(out.payload.entries_view(), "description"@) {
            Some(stored) => contains_seq(stored, desc),
            None => false,
        },
        None => false,
    }
}

/// The per-file decision of the coordinator: a file without a stored
/// description is dropped; a file whose existing indexed point already
/// carries the description is dropped as an idempotent no-op; any other
/// file becomes a pending task keyed by its content identity.
pub fn evaluate_file(path: &String, description: &Option<String>, existing: &Option<
    VectorOutput,
>) -> (r: Option<EmbeddingTask>)
    ensures
        match r {
            Some(t) => {
                &&& description is Some
                &&& !stored_description_matches(*existing, description->0@)
                &&& t.id == path_content_id(path@)
                &&& t.description == description->0
                &&& t.path == *path
            },
            None => description is None || stored_description_matches(*existing, description->0@),
        },
{
    let d = match description {
        Some(d) => d,
        None => {
            return None;
        },
    };
    let id = generate_hash(path.as_str());
    let skip = match existing {
        Some(out) => match out.payload.get("description") {
            Some(stored) => {
                let sc = to_chars(stored.as_str());
                let dc = to_chars(d.as_str());
                contains_chars(&sc, &dc)
            },
            None => false,
        },
        None => false,
    };
    if skip {
        None
    } else {
        Some(EmbeddingTask { id, description: d.clone(), path: path.clone() })
    }
}

/// The concatenation of a list of chunks.
pub open spec fn chunks_flat(r: Seq<Vec<String>>) -> Seq<String> {
    r.map_values(|c: Vec<String>| c@).flatten()
}

/// Partitions the paths into contiguous chunks of the given size; every
/// chunk but possibly the last is full, and concatenating the chunks gives
/// back the input in order.
pub fn chunk_paths(paths: Vec<String>, chunk_size: usize) -> (r: Vec<Vec<String>>)
    requires
        chunk_size >= 1,
    ensures
        chunks_flat(r@) == paths@,
        forall|i: int| 0 <= i < r@.len() ==> 1 <= (#[trigger] r@[i])@.len() <= chunk_size,
        forall|i: int| 0 <= i < r@.len() - 1 ==> (#[trigger] r@[i])@.len() == chunk_size,
{
    let ghost paths0 = paths@;
    let mut rest = paths;
    let mut out: Vec<Vec<String>> = Vec::new();
    let mut cur: Vec<String> = Vec::new();
    proof {
        assert(out@.map_values(|c: Vec<String>| c@) =~= Seq::<Seq<String>>::empty());
        assert(chunks_flat(out@) =~= Seq::<String>::empty());
        assert(chunks_flat(out@) + cur@ + rest@ =~= paths0);
    }
    while rest.len() > 0
        invariant
            chunk_size >= 1,
            chunks_flat(out@) + cur@ + rest@ == paths0,
            cur@.len() < chunk_size,
            forall|i: int| 0 <= i < out@.len() ==> (#[trigger] out@[i])@.len() == chunk_size,
        decreases rest@.len(),
    {
        let ghost rpre = rest@;
        let x = rest.remove(0);
        cur.push(x);
        proof {
            assert(rpre.remove(0) =~= rpre.drop_first());
            assert(chunks_flat(out@) + cur@ + rest@ =~= paths0);
        }
        if cur.len() == chunk_size {
            let full = cur;
            cur = Vec::new();
            let ghost opre = out@;
            out.push(full);
            proof {
                assert(out@.map_values(|c: Vec<String>| c@) =~= opre.map_values(
                    |c: Vec<String>| c@,
                ).push(full@));
                opre.map_values(|c: Vec<String>| c@).lemma_flatten_push(full@);
                assert(chunks_flat(out@) =~= chunks_flat(opre) + full@);
                assert(chunks_flat(out@) + cur@ + rest@ =~= paths0);
            }
        }
    }
    if cur.len() > 0 {
        let ghost opre = out@;
        let last = cur;
        out.push(last);
        proof {
            assert(out@.map_values(|c: Vec<String>| c@) =~= opre.map_values(
                |c: Vec<String>| c@,
            ).push(last@));
            opre.map_values(|c: Vec<String>| c@).lemma_flatten_push(last@);
            assert(chunks_flat(out@) =~= chunks_flat(opre) + last@);
            assert(chunks_flat(out@) =~= paths0);
        }
    } else {
        proof {
            assert(chunks_flat(out@) =~= paths0);
        }
    }
    out
}

/// Pairs each pending task with the embedding vector at the same position
/// and builds the point to upsert: identity from the task, embedding from
/// the response, payload from the task's path and description. The pairing
/// is positional and exact.
pub fn build_inputs(tasks: Vec<EmbeddingTask>, embeddings: Vec<Vec<u32>>) -> (r: Vec<VectorInput>)
    requires
        tasks@.len() == embeddings@.len(),
    ensures
        r@.len() == tasks@.len(),
        forall|i: int|
            0 <= i < r@.len() ==> {
                &&& (#[trigger] r@[i]).id == tasks@[i].id
                &&& r@[i].embedding@ == embeddings@[i]@
                &&& payload_matches_task(r@[i].payload, tasks@[i])
            },
{
    let ghost tasks0 = tasks@;
    let ghost embs0 = embeddings@;
    let mut tasks = tasks;
    let mut embeddings = embeddings;
    let mut out: Vec<VectorInput> = Vec::new();
    while tasks.len() > 0
        invariant
            tasks0.len() == embs0.len(),
            out@.len() + tasks@.len() == tasks0.len(),
            tasks@ == tasks0.skip(out@.len() as int),
            embeddings@ == embs0.skip(out@.len() as int),
            forall|i: int|
                0 <= i < out@.len() ==> {
                    &&& (#[trigger] out@[i]).id == tasks0[i].id
                    &&& out@[i].embedding@ == embs0[i]@
                    &&& payload_matches_task(out@[i].payload, tasks0[i])
                },
        decreases tasks@.len(),
    {
        let ghost k = out@.len() as int;
        let t = tasks.remove(0);
        let e = embeddings.remove(0);
        proof {
            assert(tasks0.skip(k)[0] == tasks0[k]);
            assert(embs0.skip(k)[0] == embs0[k]);
            assert(tasks0.skip(k).remove(0) =~= tasks0.skip(k + 1));
            assert(embs0.skip(k).remove(0) =~= embs0.skip(k + 1));
        }
        let p = build_payload(&t);
        out.push(VectorInput { id: t.id, embedding: e, payload: p });
    }
    out
}

} // verus!
