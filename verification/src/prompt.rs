//! Assembling the augmented completion prompt from retrieval results.

use vstd::prelude::*;
use crate::docs::Document;
use crate::index::ScoredPoint;

verus! {

/// A completion request: a fixed system preamble, the retrieved context
/// documents in descending-similarity order, and the user's question.
pub struct AugmentedPrompt {
    pub preamble: String,
    pub context: Vec<Document>,
    pub question: String,
}

/// The context block: each document's content followed by a newline.
pub open spec fn joined_context(docs: Seq<Seq<char>>) -> Seq<char>
    decreases docs.len(),
{
    if docs.len() == 0 {
        Seq::empty()
    } else {
        joined_context(docs.drop_last()) + docs.last() + seq!['\n']
    }
}

/// The user message the completion call receives: with no retrieved
/// context it degrades to the question alone; otherwise the context
/// block, then the question.
pub open spec fn spec_user_message(docs: Seq<Seq<char>>, question: Seq<char>) -> Seq<char> {
    if docs.len() == 0 {
        question
    } else {
        joined_context(docs) + question
    }
}

/// Build the augmented prompt for a query: the retrieved documents keep
/// their descending-similarity order, and the preamble and question are
/// carried over unchanged.
pub fn build_prompt(preamble: &str, results: &Vec<ScoredPoint>, question: &str) -> (p:
    AugmentedPrompt)
    ensures
        p.preamble@ == preamble@,
        p.question@ == question@,
        p.context@.len() == results@.len(),
        forall|k: int|
            0 <= k < results@.len() ==> (#[trigger] p.context@[k]).id@ == results@[k]@.id
                && p.context@[k].content@ == results@[k]@.content,
{
    let mut context: Vec<Document> = Vec::new();
    let mut i: usize = 0;
    while i < results.len()
        invariant
            i <= results@.len(),
            context@.len() == i,
            forall|k: int|
                0 <= k < i ==> (#[trigger] context@[k]).id@ == results@[k]@.id
                    && context@[k].content@ == results@[k]@.content,
        decreases results@.len() - i,
    {
        context.push(results[i].document.clone());
        i = i + 1;
    }
    AugmentedPrompt { preamble: preamble.to_owned(), context, question: question.to_owned() }
}

/// Render the user message of a prompt: the retrieved contents, each
/// followed by a newline, then the question; with no retrieved context,
/// the question alone.
#[verifier::loop_isolation(false)]
pub fn render_user_message(p: &AugmentedPrompt) -> (s: String)
    ensures
        s@ == spec_user_message(p.context@.map_values(|d: Document| d.content@), p.question@),
{
    let ghost docs = p.context@.map_values(|d: Document| d.content@);
    if p.context.len() == 0 {
        return p.question.as_str().to_owned();
    }
    let mut s = String::new();
    let mut i: usize = 0;
    proof {
        assert(s@ =~= joined_context(docs.take(0)));
    }
    while i < p.context.len()
        invariant
            i <= p.context@.len(),
            s@ == joined_context(docs.take(i as int)),
        decreases p.context@.len() - i,
    {
        s.append(p.context[i].content.as_str());
        s.append("\n");
        proof {
            reveal_strlit("\n");
            assert(docs.take(i as int + 1).drop_last() =~= docs.take(i as int));
            assert(docs.take(i as int + 1).last() == docs[i as int]);
            assert(s@ =~= joined_context(docs.take(i as int + 1)));
        }
        i = i + 1;
    }
    s.append(p.question.as_str());
    proof {
        assert(docs.take(p.context@.len() as int) =~= docs);
    }
    s
}

/// A query whose retrieval came back empty is passed on bare: the user
/// message of a prompt with no context documents is the question alone.
pub proof fn lemma_empty_context_degrades(docs: Seq<Seq<char>>, question: Seq<char>)
    requires
        docs.len() == 0,
    ensures
        spec_user_message(docs, question) == question,
{
}

} // verus!
