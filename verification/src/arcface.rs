//! ArcFace: the model's files and outputs, embedding arithmetic, and the closest
//! enrolled identity.
use vstd::prelude::*;

use crate::embeddings::{EmbeddingDb, EMBEDDING_DIM};
use crate::ieee::{law_operands_commute, Binary32, Binary64};
use crate::text::{decimal, push_decimal};

verus! {

/// Filesystem path to the ArcFace ONNX model, relative to the project root.
pub const ARCFACE_MODEL: &'static str = "data/models/w600k_mbf.onnx";

/// The ArcFace model expects a square face crop of this side.
pub const ARCFACE_INPUT_SIZE: i32 = 112;

/// Filesystem path to the JSON embedding database, relative to the project root.
pub const EMBEDDINGS_PATH: &'static str = "data/embeddings.json";

// ---------------------------------------------------------------------------
// Model and outputs
// ---------------------------------------------------------------------------

/// What is said if the model file is missing.
pub open spec fn model_missing() -> Seq<char> {
    "ArcFace model not found at: "@ + ARCFACE_MODEL@ + "\nDownload it:\nwget -O data/models/w600k_mbf.onnx \\\nhttps://huggingface.co/deepghs/insightface/resolve/main/buffalo_s/w600k_mbf.onnx"@
}

/// Whether the model can be loaded: an error with a hint if its file is missing.
pub fn check_model(present: bool) -> (checked: Result<(), String>)
    ensures
        checked is Ok <==> present,
        checked matches Err(why) ==> why@ == model_missing(),
{
    if present {
        Ok(())
    } else {
        let mut why: String = "ArcFace model not found at: ".to_owned();
        why.append(ARCFACE_MODEL);
        why.append(
            "\nDownload it:\nwget -O data/models/w600k_mbf.onnx \\\nhttps://huggingface.co/deepghs/insightface/resolve/main/buffalo_s/w600k_mbf.onnx",
        );
        Err(why)
    }
}

/// What is said of outputs that hold no embedding.
pub open spec fn output_fault(outputs: Seq<Vec<Binary32>>) -> Option<Seq<char>> {
    if outputs.len() == 0 {
        Some("ArcFace produced no output"@)
    } else if outputs[0]@.len() < EMBEDDING_DIM {
        Some(
            "ArcFace output too small: "@ + decimal(outputs[0]@.len()) + " elements (expected "@
                + decimal(EMBEDDING_DIM as nat) + ")"@,
        )
    } else {
        None
    }
}

/// The normalized embedding in the outputs of the model: the first elements of
/// the first output.  An error if there is no output or it is too small.
pub fn embedding_of(outputs: &Vec<Vec<Binary32>>) -> (embedding: Result<Vec<Binary32>, String>)
    ensures
        match embedding {
            Ok(e) => output_fault(outputs@) is None && e@ == normalized(
                outputs@[0]@.take(EMBEDDING_DIM as int),
            ),
            Err(why) => output_fault(outputs@) == Some(why@),
        },
        embedding is Ok <==> outputs@.len() > 0 && outputs@[0]@.len() >= 512,
        embedding matches Err(why) ==> why@ == if outputs@.len() == 0 {
            "ArcFace produced no output"@
        } else {
            "ArcFace output too small: "@ + decimal(outputs@[0]@.len()) + " elements (expected "@
                + decimal(512) + ")"@
        },
{
    if outputs.len() == 0 {
        return Err("ArcFace produced no output".to_owned());
    }
    let first: &Vec<Binary32> = &outputs[0];
    if first.len() < EMBEDDING_DIM {
        let mut why: String = "ArcFace output too small: ".to_owned();
        push_decimal(&mut why, first.len() as u64);
        why.append(" elements (expected ");
        push_decimal(&mut why, EMBEDDING_DIM as u64);
        why.append(")");
        return Err(why);
    }
    let mut raw: Vec<Binary32> = Vec::new();
    for i in 0..EMBEDDING_DIM
        invariant
            first@.len() >= EMBEDDING_DIM,
            raw@ == first@.take(i as int),
    {
        raw.push(first[i]);
        assert(raw@ =~= first@.take(i as int + 1));
    }
    Ok(normalize(&raw))
}

// ---------------------------------------------------------------------------
// Similarity and averaging
// ---------------------------------------------------------------------------

/// The products of the first `n` elements, added up from minus zero in order.
pub open spec fn dot(a: Seq<Binary32>, b: Seq<Binary32>, n: nat) -> Binary32
    decreases n,
{
    if n == 0 {
        Binary32 { bits: 0x8000_0000 }
    } else {
        let i = n - 1;
        dot(a, b, i as nat).sum(a[i].product(b[i]))
    }
}

/// The dot product, as far as both vectors reach.
pub open spec fn cosine(a: Seq<Binary32>, b: Seq<Binary32>) -> Binary64 {
    let n = if a.len() <= b.len() {
        a.len()
    } else {
        b.len()
    };
    dot(a, b, n).widened()
}

/// The length of a vector, but no less than 1e-10.
pub open spec fn norm(v: Seq<Binary32>) -> Binary32 {
    dot(v, v, v.len()).root().maximum(Binary32 { bits: 0x2edb_e6ff })
}

/// The vector divided by its length.
pub open spec fn normalized(v: Seq<Binary32>) -> Seq<Binary32> {
    Seq::new(v.len(), |i: int| v[i].quotient(norm(v)))
}

/// The elements at `i` of the first `k` embeddings, added up from zero in order.
/// An embedding that does not reach so far adds nothing.
pub open spec fn total(embeddings: Seq<Vec<Binary32>>, i: int, k: nat) -> Binary32
    decreases k,
{
    if k == 0 {
        Binary32 { bits: 0 }
    } else {
        let before = total(embeddings, i, (k - 1) as nat);
        let last = embeddings[k - 1]@;
        if i < last.len() {
            before.sum(last[i])
        } else {
            before
        }
    }
}

/// The element-wise mean of the embeddings.
pub open spec fn mean(embeddings: Seq<Vec<Binary32>>) -> Seq<Binary32> {
    Seq::new(
        EMBEDDING_DIM as nat,
        |i: int|
            total(embeddings, i, embeddings.len()).quotient(
                Binary32::of_int(embeddings.len() as int),
            ),
    )
}

/// The products of the first `n` elements, added up from minus zero in order.
fn dot_product(a: &[Binary32], b: &[Binary32], n: usize) -> (product: Binary32)
    requires
        n <= a@.len(),
        n <= b@.len(),
    ensures
        product == dot(a@, b@, n as nat),
{
    let mut product: Binary32 = Binary32 { bits: 0x8000_0000 };
    for i in 0..n
        invariant
            n <= a@.len(),
            n <= b@.len(),
            product == dot(a@, b@, i as nat),
    {
        product = product.plus(a[i].times(b[i]));
    }
    product
}

/// Compute the cosine similarity between two normalized embedding vectors.
///
/// Both have unit length, so this is the dot product.
pub fn cosine_similarity(a: &[Binary32], b: &[Binary32]) -> (similarity: Binary64)
    ensures
        similarity == cosine(a@, b@),
{
    let n: usize = if a.len() <= b.len() {
        a.len()
    } else {
        b.len()
    };
    dot_product(a, b, n).widen()
}

/// Divide a vector by its length.
pub fn normalize(v: &[Binary32]) -> (unit: Vec<Binary32>)
    ensures
        unit@ == normalized(v@),
{
    let norm: Binary32 = dot_product(v, v, v.len()).sqrt().max(Binary32 { bits: 0x2edb_e6ff });
    let mut unit: Vec<Binary32> = Vec::new();
    for i in 0..v.len()
        invariant
            norm == self::norm(v@),
            unit@ == normalized(v@).take(i as int),
    {
        unit.push(v[i].over(norm));
        assert(unit@ =~= normalized(v@).take(i as int + 1));
    }
    assert(unit@ =~= normalized(v@));
    unit
}

/// Average multiple embeddings element-wise, then normalize the result.
///
/// Returns an empty vector if `embeddings` is empty.
pub fn average_embeddings(embeddings: &Vec<Vec<Binary32>>) -> (average: Vec<Binary32>)
    ensures
        average@ == if embeddings@.len() == 0 {
            Seq::empty()
        } else {
            normalized(mean(embeddings@))
        },
{
    let mut avg: Vec<Binary32> = Vec::new();
    if embeddings.len() == 0 {
        return avg;
    }
    let n: Binary32 = Binary32::from_usize(embeddings.len());
    for i in 0..EMBEDDING_DIM
        invariant
            n == Binary32::of_int(embeddings@.len() as int),
            avg@ == mean(embeddings@).take(i as int),
    {
        let mut sum: Binary32 = Binary32 { bits: 0 };
        for k in 0..embeddings.len()
            invariant
                sum == total(embeddings@, i as int, k as nat),
        {
            if i < embeddings[k].len() {
                sum = sum.plus(embeddings[k][i]);
            }
        }
        avg.push(sum.over(n));
        assert(avg@ =~= mean(embeddings@).take(i as int + 1));
    }
    assert(avg@ =~= mean(embeddings@));
    normalize(&avg)
}

/// The similarity of two vectors is the same in either direction.
pub proof fn law_similarity_is_symmetric(a: Seq<Binary32>, b: Seq<Binary32>)
    ensures
        cosine(a, b) == cosine(b, a),
{
    let n = if a.len() <= b.len() {
        a.len()
    } else {
        b.len()
    };
    lemma_dot_symmetric(a, b, n);
}

proof fn lemma_dot_symmetric(a: Seq<Binary32>, b: Seq<Binary32>, n: nat)
    ensures
        dot(a, b, n) == dot(b, a, n),
    decreases n,
{
    if n > 0 {
        lemma_dot_symmetric(a, b, (n - 1) as nat);
        law_operands_commute(a[n - 1], b[n - 1]);
    }
}

// ---------------------------------------------------------------------------
// The closest identity
// ---------------------------------------------------------------------------

/// Minus one: no similarity counts that is not above it.
pub open spec fn lowest() -> Binary64 {
    Binary64 { bits: 0xbff0_0000_0000_0000 }
}

/// Some similarity counts.
pub open spec fn any_counts(sims: Seq<Binary64>) -> bool {
    exists|i: int| 0 <= i < sims.len() && lowest().less(#[trigger] sims[i])
}

/// `name` and `sim` are those of the first identity of the greatest similarity,
/// where `sims` holds the similarity of each; `UNKNOWN` and minus one if none
/// counts.
pub open spec fn best_match<V>(
    db: Seq<(Seq<char>, Seq<V>)>,
    sims: Seq<Binary64>,
    name: Seq<char>,
    sim: Binary64,
) -> bool {
    if any_counts(sims) {
        exists|i: int|
            0 <= i < sims.len() && sim == #[trigger] sims[i] && name == db[i].0 && first_greatest(
                sims,
                i,
            )
    } else {
        name == "UNKNOWN"@ && sim == lowest()
    }
}

/// The similarity at `i` counts, none is greater, and none before it is as great.
pub open spec fn first_greatest(sims: Seq<Binary64>, i: int) -> bool {
    &&& lowest().less(sims[i])
    &&& forall|j: int| 0 <= j < sims.len() ==> !sims[i].less(#[trigger] sims[j])
    &&& forall|j: int| 0 <= j < i ==> !sims[i].at_most(#[trigger] sims[j])
}

/// The similarity of the query to each identity in order.
pub open spec fn similarities(
    db: Seq<(Seq<char>, Seq<Binary32>)>,
    query: Seq<Binary32>,
) -> Seq<Binary64> {
    Seq::new(db.len(), |i: int| cosine(query, db[i].1))
}

/// Find the closest identity in the database by cosine similarity.
///
/// Returns `UNKNOWN` and minus one if the database is empty.
pub fn find_best_match(
    db: &EmbeddingDb<Binary32>,
    query: &[Binary32],
) -> (best: (String, Binary64))
    ensures
        best_match(db@, similarities(db@, query@), best.0@, best.1),
{
    let ghost sims = similarities(db@, query@);
    let mut best_name: String = "UNKNOWN".to_owned();
    let mut best_sim: Binary64 = Binary64 { bits: 0xbff0_0000_0000_0000 };
    let ghost mut at: Option<int> = None;
    let n: usize = db.len();
    for i in 0..n
        invariant
            n == db@.len(),
            sims == similarities(db@, query@),
            !best_sim.is_nan(),
            match at {
                None => best_sim == lowest() && best_name@ == "UNKNOWN"@,
                Some(a) => 0 <= a < i && best_sim == sims[a] && best_name@ == db@[a].0
                    && lowest().less(best_sim) && forall|j: int|
                    0 <= j < a ==> !best_sim.at_most(#[trigger] sims[j]),
            },
            forall|j: int| 0 <= j < i ==> !best_sim.less(#[trigger] sims[j]),
    {
        let sim: Binary64 = cosine_similarity(query, &db.identities()[i].embedding);
        assert(sim == sims[i as int]);
        if best_sim.is_less(sim) {
            assert forall|j: int| 0 <= j < i implies !sim.at_most(#[trigger] sims[j]) by {
                assert(!best_sim.less(sims[j]));
            }
            best_sim = sim;
            best_name = db.identities()[i].name.clone();
            proof {
                at = Some(i as int);
            }
        }
    }
    proof {
        if let Some(a) = at {
            assert(lowest().less(sims[a]));
            assert(first_greatest(sims, a));
        }
    }
    (best_name, best_sim)
}

/// Every similarity of one list occurs in the other.
pub open spec fn occur_in(some: Seq<Binary64>, other: Seq<Binary64>) -> bool {
    forall|i: int| 0 <= i < some.len() ==> other.contains(#[trigger] some[i])
}

/// The greatest similarity does not depend on the order of the identities.
pub proof fn law_best_similarity_ignores_order<V>(
    db1: Seq<(Seq<char>, Seq<V>)>,
    sims1: Seq<Binary64>,
    name1: Seq<char>,
    best1: Binary64,
    db2: Seq<(Seq<char>, Seq<V>)>,
    sims2: Seq<Binary64>,
    name2: Seq<char>,
    best2: Binary64,
)
    requires
        best_match(db1, sims1, name1, best1),
        best_match(db2, sims2, name2, best2),
        occur_in(sims1, sims2),
        occur_in(sims2, sims1),
    ensures
        best1.value() == best2.value(),
{
    lemma_best_no_greater(db1, sims1, name1, best1, db2, sims2, name2, best2);
    lemma_best_no_greater(db2, sims2, name2, best2, db1, sims1, name1, best1);
}

proof fn lemma_best_no_greater<V>(
    db1: Seq<(Seq<char>, Seq<V>)>,
    sims1: Seq<Binary64>,
    name1: Seq<char>,
    best1: Binary64,
    db2: Seq<(Seq<char>, Seq<V>)>,
    sims2: Seq<Binary64>,
    name2: Seq<char>,
    best2: Binary64,
)
    requires
        best_match(db1, sims1, name1, best1),
        best_match(db2, sims2, name2, best2),
        occur_in(sims1, sims2),
    ensures
        best1.value() <= best2.value(),
{
    if any_counts(sims1) {
        let i = choose|i: int|
            0 <= i < sims1.len() && best1 == #[trigger] sims1[i] && name1 == db1[i].0
                && first_greatest(sims1, i);
        assert(sims2.contains(sims1[i]));
        let j = choose|j: int| 0 <= j < sims2.len() && sims2[j] == sims1[i];
        assert(lowest().less(sims2[j]));
        assert(any_counts(sims2));
        let k = choose|k: int|
            0 <= k < sims2.len() && best2 == #[trigger] sims2[k] && name2 == db2[k].0
                && first_greatest(sims2, k);
        assert(!sims2[k].less(sims2[j]));
    } else if any_counts(sims2) {
        let k = choose|k: int|
            0 <= k < sims2.len() && best2 == #[trigger] sims2[k] && name2 == db2[k].0
                && first_greatest(sims2, k);
        assert(lowest().less(sims2[k]));
    }
}

} // verus!
