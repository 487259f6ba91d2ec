//! Chunk documents and their deterministic identifiers.

use vstd::prelude::*;
use crate::chunker::spec_chunks;

verus! {

/// One chunk of a source document, keyed by a stable identifier.
pub struct Document {
    pub id: String,
    pub content: String,
}

impl Clone for Document {
    fn clone(&self) -> (r: Document)
        ensures
            r.id@ == self.id@,
            r.content@ == self.content@,
    {
        Document { id: self.id.as_str().to_owned(), content: self.content.as_str().to_owned() }
    }
}

/// The character for one decimal digit.
pub open spec fn digit_char(d: nat) -> char {
    if d == 0 {
        '0'
    } else if d == 1 {
        '1'
    } else if d == 2 {
        '2'
    } else if d == 3 {
        '3'
    } else if d == 4 {
        '4'
    } else if d == 5 {
        '5'
    } else if d == 6 {
        '6'
    } else if d == 7 {
        '7'
    } else if d == 8 {
        '8'
    } else {
        '9'
    }
}

/// The decimal digits of `n`, most significant first, no leading zeros.
pub open spec fn dec_digits(n: nat) -> Seq<char>
    decreases n,
{
    if n < 10 {
        seq![digit_char(n)]
    } else {
        dec_digits(n / 10).push(digit_char(n % 10))
    }
}

/// The id assigned to chunk `i` under `prefix`: the prefix, an underscore,
/// and the 0-based position in decimal.
pub open spec fn spec_doc_id(prefix: Seq<char>, i: nat) -> Seq<char> {
    prefix + seq!['_'] + dec_digits(i)
}

fn digit_str(d: usize) -> (s: &'static str)
    requires
        d < 10,
    ensures
        s@ == seq![digit_char(d as nat)],
{
    if d == 0 {
        proof {
            reveal_strlit("0");
        }
        "0"
    } else if d == 1 {
        proof {
            reveal_strlit("1");
        }
        "1"
    } else if d == 2 {
        proof {
            reveal_strlit("2");
        }
        "2"
    } else if d == 3 {
        proof {
            reveal_strlit("3");
        }
        "3"
    } else if d == 4 {
        proof {
            reveal_strlit("4");
        }
        "4"
    } else if d == 5 {
        proof {
            reveal_strlit("5");
        }
        "5"
    } else if d == 6 {
        proof {
            reveal_strlit("6");
        }
        "6"
    } else if d == 7 {
        proof {
            reveal_strlit("7");
        }
        "7"
    } else if d == 8 {
        proof {
            reveal_strlit("8");
        }
        "8"
    } else {
        proof {
            reveal_strlit("9");
        }
        "9"
    }
}

fn usize_to_dec(n: usize) -> (s: String)
    ensures
        s@ == dec_digits(n as nat),
    decreases n,
{
    if n < 10 {
        digit_str(n).to_owned()
    } else {
        let mut s = usize_to_dec(n / 10);
        s.append(digit_str(n % 10));
        proof {
            assert(dec_digits((n as nat) / 10) + seq![digit_char((n as nat) % 10)] =~= dec_digits(
                (n as nat) / 10,
            ).push(digit_char((n as nat) % 10)));
        }
        s
    }
}

/// Build the id of the chunk at position `i` under `prefix`.
pub fn make_id(prefix: &str, i: usize) -> (id: String)
    ensures
        id@ == spec_doc_id(prefix@, i as nat),
{
    let mut s = prefix.to_owned();
    s.append("_");
    let d = usize_to_dec(i);
    s.append(d.as_str());
    proof {
        reveal_strlit("_");
        assert(s@ =~= spec_doc_id(prefix@, i as nat));
    }
    s
}

/// Pair each chunk with its deterministic id: chunk `i` gets
/// `"{prefix}_{i}"`, so re-ingesting the same chunks under the same prefix
/// reproduces the same ids.
pub fn build_documents(chunks: &Vec<String>, id_prefix: &str) -> (docs: Vec<Document>)
    ensures
        docs@.len() == chunks@.len(),
        forall|k: int|
            0 <= k < docs@.len() ==> (#[trigger] docs@[k]).id@ == spec_doc_id(id_prefix@, k as nat)
                && docs@[k].content@ == chunks@[k]@,
{
    let mut docs: Vec<Document> = Vec::new();
    let mut i: usize = 0;
    while i < chunks.len()
        invariant
            i <= chunks@.len(),
            docs@.len() == i,
            forall|k: int|
                0 <= k < i ==> (#[trigger] docs@[k]).id@ == spec_doc_id(id_prefix@, k as nat)
                    && docs@[k].content@ == chunks@[k]@,
        decreases chunks@.len() - i,
    {
        let id = make_id(id_prefix, i);
        let content = chunks[i].as_str().to_owned();
        docs.push(Document { id, content });
        i = i + 1;
    }
    docs
}

/// The id sequence one ingestion run assigns: one id per chunk of the text.
pub open spec fn ingest_ids(text: Seq<char>, max: nat, prefix: Seq<char>) -> Seq<Seq<char>> {
    Seq::new(spec_chunks(text, max).len(), |k: int| spec_doc_id(prefix, k as nat))
}

/// Id determinism: ids depend only on the prefix and the chunk position,
/// so any two ingestion runs with the same prefix agree on every position
/// they both reach; in particular, ingesting the same text twice yields the
/// identical id sequence both times.
pub proof fn lemma_id_determinism(
    text1: Seq<char>,
    text2: Seq<char>,
    max1: nat,
    max2: nat,
    prefix: Seq<char>,
)
    ensures
        ingest_ids(text1, max1, prefix).len() == spec_chunks(text1, max1).len(),
        forall|k: int|
            0 <= k < ingest_ids(text1, max1, prefix).len() && k < ingest_ids(
                text2,
                max2,
                prefix,
            ).len() ==> ingest_ids(text1, max1, prefix)[k] == ingest_ids(text2, max2, prefix)[k],
{
}

} // verus!
