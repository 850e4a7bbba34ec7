use crate::error::RagError;
use crate::numbers::{append_decimal, decimal};
use crate::rag_data::vector_views;
use crate::text::{append_text, string_texts};
use vstd::prelude::*;

verus! {

/// Texts to embed, and whether they are queries rather than documents.
#[derive(Debug)]
pub struct EmbeddingsData {
    pub texts: Vec<String>,
    pub query: bool,
}

impl EmbeddingsData {
    /// The given texts, as queries or as documents.
    pub fn new(texts: Vec<String>, query: bool) -> (data: Self)
        ensures
            data.texts == texts,
            data.query == query,
    {
        EmbeddingsData { texts, query }
    }
}

/// A progress message: the label, then the step and the number of steps in
/// square brackets.
pub open spec fn progress_text(label: Seq<char>, step: nat, steps: nat) -> Seq<char> {
    label + seq![' ', '['] + decimal(step) + seq!['/'] + decimal(steps) + seq![']']
}

/// A progress message: `label [step/steps]`.
pub fn progress_message(label: &str, step: usize, steps: usize) -> (message: String)
    ensures
        message@ == progress_text(label@, step as nat, steps as nat),
{
    let mut message = String::new();
    append_text(&mut message, label);
    message.push(' ');
    message.push('[');
    append_decimal(&mut message, step);
    message.push('/');
    append_decimal(&mut message, steps);
    message.push(']');
    assert(message@ =~= progress_text(label@, step as nat, steps as nat));
    message
}

/// The number of batches of at most `batch_size` that `count` texts make.
pub open spec fn batch_count(count: nat, batch_size: nat) -> nat {
    if batch_size == 0 {
        0
    } else {
        ((count + batch_size - 1) / (batch_size as int)) as nat
    }
}

/// Rounding a quotient up adds one where the division leaves a remainder.
proof fn lemma_batch_count(count: nat, batch_size: nat)
    requires
        batch_size > 0,
    ensures
        batch_count(count, batch_size) == count / batch_size + if count % batch_size == 0 {
            0nat
        } else {
            1nat
        },
        count % batch_size != 0 ==> count / batch_size < count,
{
    let n = count as int;
    let b = batch_size as int;
    let q = n / b;
    let r = n % b;
    vstd::arithmetic::div_mod::lemma_fundamental_div_mod(n, b);
    vstd::arithmetic::div_mod::lemma_mod_bound(n, b);
    if r == 0 {
        assert(n + b - 1 == q * b + (b - 1)) by (nonlinear_arith)
            requires
                n == b * q + r,
                r == 0,
        ;
        vstd::arithmetic::div_mod::lemma_fundamental_div_mod_converse(n + b - 1, b, q, b - 1);
    } else {
        assert(n + b - 1 == (q + 1) * b + (r - 1)) by (nonlinear_arith)
            requires
                n == b * q + r,
        ;
        vstd::arithmetic::div_mod::lemma_fundamental_div_mod_converse(n + b - 1, b, q + 1, r - 1);
        assert(q < n) by (nonlinear_arith)
            requires
                n == b * q + r,
                r > 0,
                b > 0,
                q >= 0,
        ;
    }
}

/// A whole number of batches and one more batch is a whole number of
/// batches.
proof fn lemma_whole_batches(done: nat, batch_size: nat)
    requires
        batch_size > 0,
        done % batch_size == 0,
    ensures
        (done + batch_size) % batch_size == 0,
{
    let s = done as int;
    let b = batch_size as int;
    vstd::arithmetic::div_mod::lemma_fundamental_div_mod(s, b);
    assert(s + b == (s / b + 1) * b + 0) by (nonlinear_arith)
        requires
            s == b * (s / b) + s % b,
            s % b == 0,
    ;
    vstd::arithmetic::div_mod::lemma_fundamental_div_mod_converse(s + b, b, s / b + 1, 0);
}

/// Where the batch that begins at `start` ends.
pub open spec fn batch_end(count: nat, batch_size: nat, start: nat) -> nat {
    if start + batch_size < count {
        start + batch_size
    } else {
        count
    }
}

/// The embedding of a list of texts, batch by batch: the texts are sent in
/// their order, in batches of a fixed size but for the last, one batch at a
/// time, and the vectors that come back are gathered in that order.
#[derive(Debug)]
pub struct EmbeddingRun {
    texts: Vec<String>,
    query: bool,
    batch_size: usize,
    output: Vec<Vec<u32>>,
}

impl EmbeddingRun {
    /// There is a vector for each text of the batches that were answered,
    /// and those are whole batches.
    #[verifier::type_invariant]
    spec fn well_formed(&self) -> bool {
        &&& self.batch_size > 0
        &&& self.output@.len() <= self.texts@.len()
        &&& self.output@.len() == self.texts@.len() || self.output@.len() % (
        self.batch_size as nat) == 0
    }

    /// The texts to embed.
    pub closed spec fn texts(&self) -> Seq<Seq<char>> {
        string_texts(self.texts@)
    }

    /// Whether the texts are queries.
    pub closed spec fn is_query(&self) -> bool {
        self.query
    }

    /// The number of texts in a batch.
    pub closed spec fn batch_size(&self) -> nat {
        self.batch_size as nat
    }

    /// The vectors gathered so far: those of the first texts.
    pub closed spec fn gathered(&self) -> Seq<Seq<u32>> {
        vector_views(self.output@)
    }

    /// All texts have their vectors.
    pub open spec fn finished(&self) -> bool {
        self.gathered().len() == self.texts().len()
    }

    /// Begins to embed `data` in batches of `batch_size`.
    pub fn start(data: EmbeddingsData, batch_size: usize) -> (outcome: Result<Self, RagError>)
        ensures
            batch_size == 0 ==> outcome == Err::<Self, RagError>(RagError::InvalidBatchSize),
            batch_size > 0 ==> (outcome matches Ok(run) && run.texts() == string_texts(
                data.texts@,
            ) && run.is_query() == data.query && run.batch_size() == batch_size
                && run.gathered().len() == 0),
    {
        if batch_size == 0 {
            return Err(RagError::InvalidBatchSize);
        }
        Ok(EmbeddingRun { texts: data.texts, query: data.query, batch_size, output: Vec::new() })
    }

    /// The number of batches that the texts make.
    pub fn batches(&self) -> (count: usize)
        ensures
            count == batch_count(self.texts().len(), self.batch_size()),
    {
        proof {
            use_type_invariant(self);
        }
        let count = self.texts.len();
        let whole = count / self.batch_size;
        proof {
            lemma_batch_count(count as nat, self.batch_size as nat);
        }
        if count % self.batch_size == 0 {
            whole
        } else {
            whole + 1
        }
    }

    /// The number of batches that were answered.
    pub fn batches_done(&self) -> (count: usize)
        ensures
            count == batch_count(self.gathered().len(), self.batch_size()),
            count <= batch_count(self.texts().len(), self.batch_size()),
    {
        proof {
            use_type_invariant(self);
        }
        let done = self.output.len();
        let whole = done / self.batch_size;
        proof {
            let b = self.batch_size as int;
            lemma_batch_count(done as nat, self.batch_size as nat);
            vstd::arithmetic::div_mod::lemma_div_is_ordered(
                done + b - 1,
                self.texts@.len() + b - 1,
                b,
            );
        }
        if done % self.batch_size == 0 {
            whole
        } else {
            whole + 1
        }
    }

    /// The batch to send next: the texts that follow those that have their
    /// vectors, as many as a batch holds or as are left. `None` once all
    /// texts have their vectors.
    pub fn next_batch(&self) -> (batch: Option<EmbeddingsData>)
        ensures
            self.finished() ==> batch is None,
            !self.finished() ==> (batch matches Some(data) && data.query == self.is_query()
                && string_texts(data.texts@) == self.texts().subrange(
                self.gathered().len() as int,
                batch_end(self.texts().len(), self.batch_size(), self.gathered().len()) as int,
            )),
    {
        proof {
            use_type_invariant(self);
        }
        let start = self.output.len();
        if start == self.texts.len() {
            return None;
        }
        let end = if self.texts.len() - start > self.batch_size {
            start + self.batch_size
        } else {
            self.texts.len()
        };
        let mut texts: Vec<String> = Vec::new();
        let mut i: usize = start;
        while i < end
            invariant
                start <= i <= end <= self.texts.len(),
                texts.len() == i - start,
                forall|k: int| 0 <= k < texts.len() ==> texts[k]@ == self.texts[start + k]@,
            decreases end - i,
        {
            texts.push(self.texts[i].clone());
            i += 1;
        }
        assert(string_texts(texts@) =~= string_texts(self.texts@).subrange(
            start as int,
            end as int,
        ));
        Some(EmbeddingsData { texts, query: self.query })
    }

    /// Takes the vectors that came back for the batch sent last, and gives the
    /// run as it then stands. There must be one vector for each text of the
    /// batch.
    pub fn accept(self, vectors: Vec<Vec<u32>>) -> (outcome: Result<Self, RagError>)
        ensures
            vectors@.len() + self.gathered().len() == batch_end(
                self.texts().len(),
                self.batch_size(),
                self.gathered().len(),
            ) ==> (outcome matches Ok(next) && next.texts() == self.texts() && next.is_query()
                == self.is_query() && next.batch_size() == self.batch_size() && next.gathered()
                == self.gathered() + vector_views(vectors@)),
            vectors@.len() + self.gathered().len() != batch_end(
                self.texts().len(),
                self.batch_size(),
                self.gathered().len(),
            ) ==> (outcome matches Err(error) && error == RagError::EmbeddingCount),
    {
        proof {
            use_type_invariant(&self);
        }
        let start = self.output.len();
        let expected = if self.texts.len() - start > self.batch_size {
            self.batch_size
        } else {
            self.texts.len() - start
        };
        if vectors.len() != expected {
            return Err(RagError::EmbeddingCount);
        }
        let ghost before = vector_views(self.output@);
        let ghost added = vector_views(vectors@);
        let mut vectors = vectors;
        let mut output = self.output;
        proof {
            if start + expected != self.texts@.len() {
                lemma_whole_batches(start as nat, self.batch_size as nat);
            }
        }
        output.append(&mut vectors);
        proof {
            assert(vector_views(output@) =~= before + added);
        }
        Ok(EmbeddingRun { texts: self.texts, query: self.query, batch_size: self.batch_size, output })
    }

    /// The vectors of all texts, in the order of the texts, once all batches
    /// were answered.
    pub fn finish(self) -> (output: Option<Vec<Vec<u32>>>)
        ensures
            self.finished() ==> (output matches Some(vectors) && vector_views(vectors@)
                == self.gathered() && vectors@.len() == self.texts().len()),
            !self.finished() ==> output is None,
    {
        if self.output.len() == self.texts.len() {
            Some(self.output)
        } else {
            None
        }
    }
}

} // verus!
