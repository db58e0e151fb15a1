//! Live-conversion helpers: checking model beams and locating chunks.
use vstd::prelude::*;

use crate::morphology::{model_candidate_preserves_reading, preserves_reading};
use crate::reading_correction::{interleave_model_candidates, interleaved, zu_du_variants, ModelCandidate};
use crate::text::{chars_of, copy_str, slice_to_string};

verus! {

/// One internal chunk of the composing buffer together with its cached model
/// conversion. The user always sees the concatenation of every chunk's
/// `converted` text; chunks only bound the length of each model call.
/// Where a chunk's conversion came from.
#[derive(Debug, Clone, Copy, Default, PartialEq, Eq, Structural)]
pub enum ComposingChunkKind {
    /// The conversion model.
    #[default]
    Model,
    /// A user dictionary entry.
    UserDictionary,
    /// Kept as typed (digits, punctuation).
    Passthrough,
}

#[derive(Debug, Clone, Default, PartialEq, Eq)]
pub struct ComposingChunk {
    /// Where the conversion came from.
    pub kind: ComposingChunkKind,
    /// Hiragana reading of this chunk.
    pub reading: String,
    /// This chunk's slice of the live preedit; the reading when the model
    /// gave nothing.
    pub converted: String,
    /// Model candidates for this chunk, best first.
    pub candidates: Vec<String>,
}

/// What the background conversion returns for a request.
#[derive(Debug)]
pub struct LiveInferenceResult {
    /// Revision of the request.
    pub revision: u64,
    /// Reading that was converted.
    pub reading: String,
    /// The converted chunks of that reading.
    pub chunks: Vec<ComposingChunk>,
    /// Whole-reading candidates, when the conversion offered them.
    pub candidates: Option<Vec<String>>,
    /// How long the conversion took, in milliseconds.
    pub conversion_ms: u64,
}

/// The candidates of a beam that pass the reading check, in order.
pub open spec fn preserving(group: Seq<ModelCandidate>, reading: Seq<char>) -> Seq<ModelCandidate> {
    group.filter(|c: ModelCandidate| preserves_reading(c.text@, reading))
}

/// Drop the candidates of one model beam that fail the reading check.
pub fn filter_preserving(group: Vec<ModelCandidate>, reading: &str) -> (out: Vec<ModelCandidate>)
    ensures
        out@ == preserving(group@, reading@),
{
    let mut out: Vec<ModelCandidate> = Vec::new();
    let mut i: usize = 0;
    while i < group.len()
        invariant
            i <= group@.len(),
            out@ == group@.take(i as int).filter(|c: ModelCandidate| preserves_reading(c.text@, reading@)),
        decreases group@.len() - i,
    {
        proof {
            reveal(Seq::filter);
            assert(group@.take(i + 1).drop_last() =~= group@.take(i as int));
        }
        if model_candidate_preserves_reading(group[i].text.as_str(), reading) {
            out.push(group[i].duplicate());
        }
        i += 1;
    }
    assert(group@.take(group@.len() as int) =~= group@);
    out
}

fn copy_group(group: &Vec<ModelCandidate>) -> (g: Vec<ModelCandidate>)
    ensures
        g@ == group@,
{
    let mut g: Vec<ModelCandidate> = Vec::new();
    let mut k: usize = 0;
    while k < group.len()
        invariant
            k <= group@.len(),
            g@ == group@.take(k as int),
        decreases group@.len() - k,
    {
        g.push(group[k].duplicate());
        assert(group@.take(k + 1) =~= group@.take(k as int).push(group@[k as int]));
        k += 1;
    }
    assert(group@.take(k as int) =~= group@);
    g
}

/// Texts for live conversion of `reading`: beam `i` of `model_outputs` is the
/// model's answer for reading variant `i` (see `zu_du_reading_variants`);
/// candidates failing the reading check are dropped, the beams are
/// interleaved, and the raw reading is the only text when nothing is left.
pub open spec fn live_texts(reading: Seq<char>, outputs: Seq<Seq<ModelCandidate>>, limit: nat) -> Seq<Seq<char>> {
    let variants = zu_du_variants(reading);
    let n = if outputs.len() < variants.len() { outputs.len() } else { variants.len() };
    let groups = Seq::new(n, |i: int| preserving(outputs[i], variants[i]));
    let merged = interleaved(groups, limit);
    if merged.len() == 0 {
        seq![reading]
    } else {
        merged.map_values(|c: ModelCandidate| c.text@)
    }
}

/// Candidate texts for a live-conversion chunk from the model's beams for
/// each reading variant.
pub fn live_candidate_texts(reading: &str, model_outputs: Vec<Vec<ModelCandidate>>, num_candidates: usize) -> (out: Vec<
    String,
>)
    ensures
        out@.map_values(|s: String| s@) == live_texts(reading@, model_outputs@.map_values(|g: Vec<ModelCandidate>| g@), num_candidates as nat),
{
    let variants = crate::reading_correction::zu_du_reading_variants(reading);
    let ghost outs = model_outputs@.map_values(|g: Vec<ModelCandidate>| g@);
    let ghost vs = zu_du_variants(reading@);
    let n = if model_outputs.len() < variants.len() { model_outputs.len() } else { variants.len() };
    let mut groups: Vec<Vec<ModelCandidate>> = Vec::new();
    let mut i: usize = 0;
    while i < n
        invariant
            n <= model_outputs@.len(),
            n <= variants@.len(),
            model_outputs@.map_values(|g: Vec<ModelCandidate>| g@) == outs,
            variants@.len() == vs.len(),
            forall|q: int| 0 <= q < variants@.len() ==> #[trigger] variants@[q]@ == vs[q],
            n == (if outs.len() < vs.len() { outs.len() } else { vs.len() }),
            i <= n,
            groups@.len() == i,
            forall|q: int| 0 <= q < i ==> #[trigger] groups@[q]@ == preserving(outs[q], vs[q]),
        decreases n - i,
    {
        let group = copy_group(&model_outputs[i]);
        let filtered = filter_preserving(group, variants[i].as_str());
        groups.push(filtered);
        i += 1;
    }
    let ghost gs = Seq::new(n as nat, |q: int| preserving(outs[q], vs[q]));
    proof {
        assert(groups@.map_values(|g: Vec<ModelCandidate>| g@) =~= gs);
    }
    let merged = interleave_model_candidates(groups, num_candidates);
    let mut out: Vec<String> = Vec::new();
    let mut m: usize = 0;
    while m < merged.len()
        invariant
            m <= merged@.len(),
            out@.map_values(|s: String| s@) == merged@.take(m as int).map_values(|c: ModelCandidate| c.text@),
        decreases merged@.len() - m,
    {
        out.push(merged[m].text.clone());
        assert(merged@.take(m + 1).map_values(|c: ModelCandidate| c.text@) =~= merged@.take(m as int).map_values(|c: ModelCandidate| c.text@).push(merged@[m as int].text@));
        assert(out@.map_values(|s: String| s@) =~= merged@.take(m as int).map_values(|c: ModelCandidate| c.text@).push(merged@[m as int].text@));
        m += 1;
    }
    proof {
        assert(merged@.take(merged@.len() as int) =~= merged@);
    }
    if out.len() == 0 {
        out.push(copy_str(reading));
        proof {
            assert(out@.map_values(|s: String| s@) =~= seq![reading@]);
        }
    }
    out
}

/// The last `max_chars` characters of `text`.
pub fn truncate_tail(text: &str, max_chars: usize) -> (out: String)
    ensures
        out@ == if text@.len() <= max_chars { text@ } else { text@.subrange(text@.len() - max_chars, text@.len() as int) },
{
    let chars = chars_of(text);
    let count = chars.len();
    let skip = if count > max_chars { count - max_chars } else { 0 };
    let out = slice_to_string(chars.as_slice(), skip, count);
    proof {
        if text@.len() <= max_chars {
            assert(text@.subrange(0, text@.len() as int) =~= text@);
        }
    }
    out
}

/// Total reading length of the first `k` chunks.
pub open spec fn chunk_prefix_len(chunks: Seq<ComposingChunk>, k: int) -> int
    decreases k,
{
    if k <= 0 {
        0
    } else {
        chunk_prefix_len(chunks, k - 1) + chunks[k - 1].reading@.len()
    }
}

/// First chunk, from index `i` on, that holds reading position `pos`; the
/// last chunk when none does (0 when there are no chunks).
pub open spec fn chunk_from(chunks: Seq<ComposingChunk>, pos: int, i: int) -> int
    decreases chunks.len() - i,
{
    if i < 0 || i >= chunks.len() {
        if chunks.len() == 0 { 0 } else { chunks.len() - 1 }
    } else if pos < chunk_prefix_len(chunks, i + 1) {
        i
    } else {
        chunk_from(chunks, pos, i + 1)
    }
}

/// Index of the chunk holding the character just before `cursor_pos`.
pub open spec fn chunk_at(chunks: Seq<ComposingChunk>, cursor_pos: nat) -> int {
    chunk_from(chunks, if cursor_pos == 0 { 0 } else { cursor_pos - 1 }, 0)
}

/// Index of the chunk under the cursor.
pub fn chunk_index(chunks: &Vec<ComposingChunk>, cursor_pos: usize) -> (idx: usize)
    ensures
        idx as int == chunk_at(chunks@, cursor_pos as nat),
{
    let pos: usize = if cursor_pos == 0 { 0 } else { cursor_pos - 1 };
    let mut end: u128 = 0;
    let mut index: usize = 0;
    while index < chunks.len()
        invariant
            index <= chunks@.len(),
            end as int == chunk_prefix_len(chunks@, index as int),
            end <= index * 0xFFFF_FFFF_FFFF_FFFF,
            chunk_at(chunks@, cursor_pos as nat) == chunk_from(chunks@, pos as int, index as int),
        decreases chunks@.len() - index,
    {
        let len = chars_of(chunks[index].reading.as_str()).len();
        proof {
            assert((index + 1) * 0xFFFF_FFFF_FFFF_FFFF == index * 0xFFFF_FFFF_FFFF_FFFF + 0xFFFF_FFFF_FFFF_FFFF) by (nonlinear_arith);
            assert(index * 0xFFFF_FFFF_FFFF_FFFF <= 0xFFFF_FFFF_FFFF_FFFF * 0xFFFF_FFFF_FFFF_FFFF) by (nonlinear_arith)
                requires index <= 0xFFFF_FFFF_FFFF_FFFF;
        }
        end = end + len as u128;
        if (pos as u128) < end {
            return index;
        }
        index += 1;
    }
    if chunks.len() == 0 { 0 } else { chunks.len() - 1 }
}

} // verus!
