//! Splitting raw document text into bounded-size chunks at word boundaries.

use vstd::prelude::*;

verus! {

/// Characters treated as token delimiters.
pub open spec fn is_space(c: char) -> bool {
    c == ' ' || c == '\t' || c == '\n' || c == '\r'
}

/// A well-formed token: non-empty and free of delimiter characters.
pub open spec fn wf_token(t: Seq<char>) -> bool {
    t.len() > 0 && (forall|i: int| 0 <= i < t.len() ==> !is_space(t[i]))
}

/// Tokens of `cur + rest`, where `cur` is a partial token under construction.
pub open spec fn tokens_from(cur: Seq<char>, rest: Seq<char>) -> Seq<Seq<char>>
    decreases rest.len(),
{
    if rest.len() == 0 {
        if cur.len() == 0 {
            Seq::empty()
        } else {
            seq![cur]
        }
    } else if is_space(rest[0]) {
        if cur.len() == 0 {
            tokens_from(Seq::empty(), rest.drop_first())
        } else {
            seq![cur] + tokens_from(Seq::empty(), rest.drop_first())
        }
    } else {
        tokens_from(cur.push(rest[0]), rest.drop_first())
    }
}

/// The whitespace-delimited tokens of a text.
pub open spec fn spec_tokens(s: Seq<char>) -> Seq<Seq<char>> {
    tokens_from(Seq::empty(), s)
}

/// Every token produced by `tokens_from` is non-empty and delimiter-free,
/// provided the partial token built so far is delimiter-free.
proof fn lemma_tokens_from_wf(cur: Seq<char>, rest: Seq<char>)
    requires
        forall|i: int| 0 <= i < cur.len() ==> !is_space(cur[i]),
    ensures
        forall|k: int|
            0 <= k < tokens_from(cur, rest).len() ==> wf_token(#[trigger] tokens_from(cur, rest)[k]),
    decreases rest.len(),
{
    if rest.len() == 0 {
        if cur.len() > 0 {
            assert(tokens_from(cur, rest) == seq![cur]);
            assert(wf_token(cur));
        }
    } else if is_space(rest[0]) {
        lemma_tokens_from_wf(Seq::empty(), rest.drop_first());
        if cur.len() == 0 {
            assert(tokens_from(cur, rest) == tokens_from(Seq::empty(), rest.drop_first()));
        }
        if cur.len() > 0 {
            assert forall|k: int| 0 <= k < tokens_from(cur, rest).len() implies wf_token(
                #[trigger] tokens_from(cur, rest)[k],
            ) by {
                if k == 0 {
                    assert(tokens_from(cur, rest)[0] == cur);
                } else {
                    assert(tokens_from(cur, rest)[k] == tokens_from(
                        Seq::empty(),
                        rest.drop_first(),
                    )[k - 1]);
                }
            }
        }
    } else {
        assert(forall|i: int|
            0 <= i < cur.push(rest[0]).len() ==> !is_space(cur.push(rest[0])[i]));
        lemma_tokens_from_wf(cur.push(rest[0]), rest.drop_first());
        assert(tokens_from(cur, rest) == tokens_from(cur.push(rest[0]), rest.drop_first()));
    }
}

/// Every token of a text is well-formed.
pub proof fn lemma_spec_tokens_wf(s: Seq<char>)
    ensures
        forall|k: int| 0 <= k < spec_tokens(s).len() ==> wf_token(#[trigger] spec_tokens(s)[k]),
{
    lemma_tokens_from_wf(Seq::empty(), s);
}

/// Tokens joined into one chunk, separated by single spaces.
pub open spec fn join_tokens(ts: Seq<Seq<char>>) -> Seq<char>
    decreases ts.len(),
{
    if ts.len() == 0 {
        Seq::empty()
    } else if ts.len() == 1 {
        ts[0]
    } else {
        ts[0] + seq![' '] + join_tokens(ts.drop_first())
    }
}

/// Appending a token to a non-empty buffer extends the joined chunk by a
/// space and that token.
proof fn lemma_join_push(ts: Seq<Seq<char>>, w: Seq<char>)
    requires
        ts.len() > 0,
    ensures
        join_tokens(ts.push(w)) == join_tokens(ts) + seq![' '] + w,
    decreases ts.len(),
{
    if ts.len() == 1 {
        assert(ts.push(w).drop_first() =~= seq![w]);
        assert(join_tokens(seq![w]) == w);
        assert(join_tokens(ts.push(w)) == ts[0] + seq![' '] + w);
    } else {
        lemma_join_push(ts.drop_first(), w);
        assert(ts.push(w).drop_first() =~= ts.drop_first().push(w));
        assert(join_tokens(ts.push(w)) == ts[0] + seq![' '] + join_tokens(ts.drop_first().push(w)));
        assert(ts[0] + seq![' '] + (join_tokens(ts.drop_first()) + seq![' '] + w) =~= (ts[0]
            + seq![' '] + join_tokens(ts.drop_first())) + seq![' '] + w);
    }
}

/// Greedy soft-cap packing of a token sequence into chunks. `cur` is the
/// buffer of tokens accumulated so far. A buffer is flushed when appending
/// the next token (with its separating space, and counting the running
/// space that trails the buffer) would push the running length past `max`;
/// a single token longer than `max` is emitted alone rather than split.
pub open spec fn pack_from(cur: Seq<Seq<char>>, toks: Seq<Seq<char>>, max: nat) -> Seq<Seq<char>>
    decreases toks.len(),
{
    if toks.len() == 0 {
        if cur.len() == 0 {
            Seq::empty()
        } else {
            seq![join_tokens(cur)]
        }
    } else if cur.len() > 0 && join_tokens(cur).len() + toks[0].len() + 2 > max {
        seq![join_tokens(cur)] + pack_from(seq![toks[0]], toks.drop_first(), max)
    } else {
        pack_from(cur.push(toks[0]), toks.drop_first(), max)
    }
}

/// The chunks of a text under a soft size cap: its tokens, greedily packed.
pub open spec fn spec_chunks(text: Seq<char>, max: nat) -> Seq<Seq<char>> {
    pack_from(Seq::empty(), spec_tokens(text), max)
}

/// Split text into its whitespace-delimited tokens, in order.
pub fn tokenize(text: &str) -> (tokens: Vec<String>)
    ensures
        tokens@.map_values(|t: String| t@) == spec_tokens(text@),
        forall|k: int| 0 <= k < tokens@.len() ==> wf_token(#[trigger] tokens@[k]@),
{
    let n = text.unicode_len();
    let mut tokens: Vec<String> = Vec::new();
    let mut i: usize = 0;
    let mut start: usize = 0;
    let mut in_token = false;
    proof {
        assert(text@.skip(0) =~= text@);
        assert(tokens@.map_values(|t: String| t@) + tokens_from(Seq::<char>::empty(), text@)
            =~= tokens_from(Seq::<char>::empty(), text@));
    }
    while i < n
        invariant
            n == text@.len(),
            i <= n,
            in_token ==> start < i,
            in_token ==> forall|j: int| start <= j < i ==> !is_space(text@[j]),
            tokens@.map_values(|t: String| t@) + tokens_from(
                if in_token {
                    text@.subrange(start as int, i as int)
                } else {
                    Seq::<char>::empty()
                },
                text@.skip(i as int),
            ) == spec_tokens(text@),
        decreases n - i,
    {
        let ghost cur: Seq<char> = if in_token {
            text@.subrange(start as int, i as int)
        } else {
            Seq::<char>::empty()
        };
        proof {
            assert(text@.skip(i as int).len() == n - i);
            assert(text@.skip(i as int)[0] == text@[i as int]);
            assert(text@.skip(i as int).drop_first() =~= text@.skip(i as int + 1));
        }
        let c = text.get_char(i);
        if c == ' ' || c == '\t' || c == '\n' || c == '\r' {
            if in_token {
                let tok = text.substring_char(start, i).to_owned();
                proof {
                    assert(tokens_from(cur, text@.skip(i as int)) == seq![cur] + tokens_from(
                        Seq::<char>::empty(),
                        text@.skip(i as int + 1),
                    ));
                    assert(tokens@.push(tok).map_values(|t: String| t@) =~= tokens@.map_values(
                        |t: String| t@,
                    ).push(tok@));
                    assert(tokens@.map_values(|t: String| t@).push(cur) + tokens_from(
                        Seq::<char>::empty(),
                        text@.skip(i as int + 1),
                    ) =~= tokens@.map_values(|t: String| t@) + tokens_from(
                        cur,
                        text@.skip(i as int),
                    ));
                }
                tokens.push(tok);
                in_token = false;
            }
        } else {
            if !in_token {
                start = i;
                in_token = true;
                proof {
                    assert(Seq::<char>::empty().push(c) =~= text@.subrange(
                        i as int,
                        i as int + 1,
                    ));
                }
            } else {
                proof {
                    assert(cur.push(c) =~= text@.subrange(start as int, i as int + 1));
                }
            }
        }
        i = i + 1;
    }
    proof {
        assert(text@.skip(n as int) =~= Seq::<char>::empty());
        if in_token {
            assert(tokens_from(text@.subrange(start as int, n as int), Seq::<char>::empty())
                == seq![text@.subrange(start as int, n as int)]);
        }
    }
    if in_token {
        let tok = text.substring_char(start, n).to_owned();
        proof {
            assert(tokens@.push(tok).map_values(|t: String| t@) =~= tokens@.map_values(
                |t: String| t@,
            ).push(tok@));
            assert(tokens@.map_values(|t: String| t@).push(tok@) =~= tokens@.map_values(
                |t: String| t@,
            ) + seq![tok@]);
        }
        tokens.push(tok);
    }
    proof {
        lemma_spec_tokens_wf(text@);
        assert forall|k: int| 0 <= k < tokens@.len() implies wf_token(#[trigger] tokens@[k]@) by {
            assert(tokens@[k]@ == tokens@.map_values(|t: String| t@)[k]);
        }
    }
    tokens
}

/// Pack tokens greedily into chunks under the soft cap `max_chunk_size`.
fn pack_tokens(tokens: &Vec<String>, max_chunk_size: usize) -> (chunks: Vec<String>)
    requires
        forall|k: int| 0 <= k < tokens@.len() ==> (#[trigger] tokens@[k]@).len() > 0,
    ensures
        chunks@.map_values(|c: String| c@) == pack_from(
            Seq::empty(),
            tokens@.map_values(|t: String| t@),
            max_chunk_size as nat,
        ),
{
    let ghost all: Seq<Seq<char>> = tokens@.map_values(|t: String| t@);
    let mut chunks: Vec<String> = Vec::new();
    let mut cur: String = String::new();
    let mut cur_len: usize = 0;
    let ghost mut cur_toks: Seq<Seq<char>> = Seq::empty();
    let mut i: usize = 0;
    proof {
        assert(all.skip(0) =~= all);
        assert(chunks@.map_values(|c: String| c@) + pack_from(cur_toks, all, max_chunk_size as nat)
            =~= pack_from(cur_toks, all, max_chunk_size as nat));
    }
    while i < tokens.len()
        invariant
            all == tokens@.map_values(|t: String| t@),
            forall|k: int| 0 <= k < tokens@.len() ==> (#[trigger] tokens@[k]@).len() > 0,
            i <= tokens@.len(),
            cur@ == join_tokens(cur_toks),
            cur_len == cur@.len(),
            cur_toks.len() == 0 <==> cur_len == 0,
            pack_from(Seq::empty(), all, max_chunk_size as nat) == chunks@.map_values(
                |c: String| c@,
            ) + pack_from(cur_toks, all.skip(i as int), max_chunk_size as nat),
        decreases tokens@.len() - i,
    {
        let w = &tokens[i];
        let w_len = w.as_str().unicode_len();
        let ghost wv: Seq<char> = tokens@[i as int]@;
        proof {
            assert(all.skip(i as int).len() == all.len() - i);
            assert(all.skip(i as int)[0] == wv);
            assert(all.skip(i as int).drop_first() =~= all.skip(i as int + 1));
        }
        if cur_len > 0 && (cur_len as u128) + (w_len as u128) + 2 > (max_chunk_size as u128) {
            proof {
                assert(pack_from(cur_toks, all.skip(i as int), max_chunk_size as nat)
                    == seq![join_tokens(cur_toks)] + pack_from(
                    seq![wv],
                    all.skip(i as int + 1),
                    max_chunk_size as nat,
                ));
            }
            let flushed = cur;
            cur = w.as_str().to_owned();
            cur_len = w_len;
            proof {
                assert(chunks@.push(flushed).map_values(|c: String| c@) =~= chunks@.map_values(
                    |c: String| c@,
                ).push(flushed@));
                assert(chunks@.map_values(|c: String| c@).push(flushed@) + pack_from(
                    seq![wv],
                    all.skip(i as int + 1),
                    max_chunk_size as nat,
                ) =~= chunks@.map_values(|c: String| c@) + (seq![join_tokens(cur_toks)]
                    + pack_from(seq![wv], all.skip(i as int + 1), max_chunk_size as nat)));
                cur_toks = seq![wv];
                assert(join_tokens(cur_toks) == wv);
            }
            chunks.push(flushed);
        } else if cur_len == 0 {
            cur = w.as_str().to_owned();
            cur_len = w_len;
            proof {
                assert(pack_from(cur_toks, all.skip(i as int), max_chunk_size as nat) == pack_from(
                    cur_toks.push(wv),
                    all.skip(i as int + 1),
                    max_chunk_size as nat,
                ));
                assert(cur_toks.push(wv) =~= seq![wv]);
                cur_toks = seq![wv];
                assert(join_tokens(cur_toks) == wv);
            }
        } else {
            proof {
                assert(pack_from(cur_toks, all.skip(i as int), max_chunk_size as nat) == pack_from(
                    cur_toks.push(wv),
                    all.skip(i as int + 1),
                    max_chunk_size as nat,
                ));
                lemma_join_push(cur_toks, wv);
                reveal_strlit(" ");
            }
            cur.append(" ");
            cur.append(w.as_str());
            cur_len = cur_len + 1 + w_len;
            proof {
                cur_toks = cur_toks.push(wv);
                assert(cur@ =~= join_tokens(cur_toks));
            }
        }
        i = i + 1;
    }
    proof {
        assert(all.skip(tokens@.len() as int) =~= Seq::<Seq<char>>::empty());
    }
    if cur_len > 0 {
        proof {
            assert(pack_from(cur_toks, Seq::empty(), max_chunk_size as nat)
                == seq![join_tokens(cur_toks)]);
            assert(chunks@.push(cur).map_values(|c: String| c@) =~= chunks@.map_values(
                |c: String| c@,
            ).push(cur@));
            assert(chunks@.map_values(|c: String| c@).push(cur@) =~= chunks@.map_values(
                |c: String| c@,
            ) + seq![join_tokens(cur_toks)]);
        }
        chunks.push(cur);
    } else {
        proof {
            assert(pack_from(cur_toks, Seq::empty(), max_chunk_size as nat)
                =~= Seq::<Seq<char>>::empty());
            assert(chunks@.map_values(|c: String| c@) + Seq::<Seq<char>>::empty()
                =~= chunks@.map_values(|c: String| c@));
        }
    }
    chunks
}

/// Split raw text into bounded chunks at word boundaries: tokens accumulate
/// into a buffer separated by single spaces, the buffer is flushed when the
/// next token would push it past `max_chunk_size`, and a lone oversized
/// token is emitted unsplit.
pub fn chunk(text: &str, max_chunk_size: usize) -> (chunks: Vec<String>)
    ensures
        chunks@.map_values(|c: String| c@) == spec_chunks(text@, max_chunk_size as nat),
{
    let tokens = tokenize(text);
    proof {
        assert forall|k: int| 0 <= k < tokens@.len() implies (#[trigger] tokens@[k]@).len()
            > 0 by {
            assert(wf_token(tokens@[k]@));
        }
    }
    pack_tokens(&tokens, max_chunk_size)
}

/// The tokens of all chunks, concatenated in order.
pub open spec fn flat_tokens(chunks: Seq<Seq<char>>) -> Seq<Seq<char>>
    decreases chunks.len(),
{
    if chunks.len() == 0 {
        Seq::empty()
    } else {
        spec_tokens(chunks[0]) + flat_tokens(chunks.drop_first())
    }
}

/// Scanning a delimiter-free stretch only grows the partial token.
proof fn lemma_tokens_from_absorb(cur: Seq<char>, t: Seq<char>, rest: Seq<char>)
    requires
        forall|i: int| 0 <= i < t.len() ==> !is_space(t[i]),
    ensures
        tokens_from(cur, t + rest) == tokens_from(cur + t, rest),
    decreases t.len(),
{
    if t.len() == 0 {
        assert(t + rest =~= rest);
        assert(cur + t =~= cur);
    } else {
        assert((t + rest)[0] == t[0]);
        assert((t + rest).drop_first() =~= t.drop_first() + rest);
        assert(cur.push(t[0]) + t.drop_first() =~= cur + t);
        lemma_tokens_from_absorb(cur.push(t[0]), t.drop_first(), rest);
        assert(tokens_from(cur, t + rest) == tokens_from(cur.push(t[0]), (t + rest).drop_first()));
    }
}

/// Tokenizing a space-joined chunk recovers exactly its tokens.
proof fn lemma_tokens_of_join(ts: Seq<Seq<char>>)
    requires
        forall|k: int| 0 <= k < ts.len() ==> wf_token(#[trigger] ts[k]),
    ensures
        spec_tokens(join_tokens(ts)) == ts,
    decreases ts.len(),
{
    if ts.len() == 0 {
        assert(spec_tokens(join_tokens(ts)) =~= Seq::<Seq<char>>::empty());
    } else if ts.len() == 1 {
        assert(ts[0] + Seq::<char>::empty() =~= ts[0]);
        lemma_tokens_from_absorb(Seq::empty(), ts[0], Seq::empty());
        assert(Seq::<char>::empty() + ts[0] =~= ts[0]);
        assert(tokens_from(ts[0], Seq::<char>::empty()) == seq![ts[0]]);
        assert(seq![ts[0]] =~= ts);
    } else {
        let rest_join = join_tokens(ts.drop_first());
        assert(ts[0] + (seq![' '] + rest_join) =~= join_tokens(ts));
        lemma_tokens_from_absorb(Seq::empty(), ts[0], seq![' '] + rest_join);
        assert(Seq::<char>::empty() + ts[0] =~= ts[0]);
        assert((seq![' '] + rest_join)[0] == ' ');
        assert((seq![' '] + rest_join).drop_first() =~= rest_join);
        assert(tokens_from(ts[0], seq![' '] + rest_join) == seq![ts[0]] + tokens_from(
            Seq::empty(),
            rest_join,
        ));
        lemma_tokens_of_join(ts.drop_first());
        assert(seq![ts[0]] + ts.drop_first() =~= ts);
    }
}

/// Packing rearranges tokens into chunks without losing or duplicating any.
proof fn lemma_flat_pack(cur: Seq<Seq<char>>, toks: Seq<Seq<char>>, max: nat)
    requires
        forall|k: int| 0 <= k < cur.len() ==> wf_token(#[trigger] cur[k]),
        forall|k: int| 0 <= k < toks.len() ==> wf_token(#[trigger] toks[k]),
    ensures
        flat_tokens(pack_from(cur, toks, max)) == cur + toks,
    decreases toks.len(),
{
    if toks.len() == 0 {
        if cur.len() == 0 {
            assert(flat_tokens(pack_from(cur, toks, max)) =~= cur + toks);
        } else {
            lemma_tokens_of_join(cur);
            assert(seq![join_tokens(cur)].drop_first() =~= Seq::<Seq<char>>::empty());
            assert(flat_tokens(seq![join_tokens(cur)]) == spec_tokens(join_tokens(cur))
                + flat_tokens(Seq::<Seq<char>>::empty()));
            assert(spec_tokens(join_tokens(cur)) + Seq::<Seq<char>>::empty() =~= cur);
            assert(cur + toks =~= cur);
        }
    } else if cur.len() > 0 && join_tokens(cur).len() + toks[0].len() + 2 > max {
        lemma_tokens_of_join(cur);
        lemma_flat_pack(seq![toks[0]], toks.drop_first(), max);
        let rest_chunks = pack_from(seq![toks[0]], toks.drop_first(), max);
        assert((seq![join_tokens(cur)] + rest_chunks)[0] == join_tokens(cur));
        assert((seq![join_tokens(cur)] + rest_chunks).drop_first() =~= rest_chunks);
        assert(flat_tokens(seq![join_tokens(cur)] + rest_chunks) == spec_tokens(join_tokens(cur))
            + flat_tokens(rest_chunks));
        assert(cur + (seq![toks[0]] + toks.drop_first()) =~= cur + toks);
    } else {
        lemma_flat_pack(cur.push(toks[0]), toks.drop_first(), max);
        assert(cur.push(toks[0]) + toks.drop_first() =~= cur + toks);
    }
}

/// No token is dropped or duplicated: concatenating the tokens of the
/// chunks of a text reproduces the text's own token sequence exactly.
pub proof fn lemma_chunk_preserves_tokens(text: Seq<char>, max: nat)
    ensures
        flat_tokens(spec_chunks(text, max)) == spec_tokens(text),
{
    lemma_spec_tokens_wf(text);
    lemma_flat_pack(Seq::empty(), spec_tokens(text), max);
    assert(Seq::<Seq<char>>::empty() + spec_tokens(text) =~= spec_tokens(text));
}

/// Size bound for packing: every chunk either fits within the cap or is a
/// single (possibly oversized) token.
proof fn lemma_pack_from_bounded(cur: Seq<Seq<char>>, toks: Seq<Seq<char>>, max: nat)
    requires
        forall|k: int| 0 <= k < cur.len() ==> wf_token(#[trigger] cur[k]),
        forall|k: int| 0 <= k < toks.len() ==> wf_token(#[trigger] toks[k]),
        cur.len() >= 2 ==> join_tokens(cur).len() + 1 <= max,
    ensures
        forall|k: int|
            0 <= k < pack_from(cur, toks, max).len() ==> ((#[trigger] pack_from(cur, toks, max)[k]).len()
                <= max || wf_token(pack_from(cur, toks, max)[k])),
    decreases toks.len(),
{
    if toks.len() == 0 {
        if cur.len() == 1 {
            assert(join_tokens(cur) == cur[0]);
            assert(wf_token(pack_from(cur, toks, max)[0]));
        }
    } else if cur.len() > 0 && join_tokens(cur).len() + toks[0].len() + 2 > max {
        lemma_pack_from_bounded(seq![toks[0]], toks.drop_first(), max);
        let rest_chunks = pack_from(seq![toks[0]], toks.drop_first(), max);
        assert forall|k: int| 0 <= k < pack_from(cur, toks, max).len() implies ((
        #[trigger] pack_from(cur, toks, max)[k]).len() <= max || wf_token(
            pack_from(cur, toks, max)[k],
        )) by {
            if k == 0 {
                assert(pack_from(cur, toks, max)[0] == join_tokens(cur));
                if cur.len() == 1 {
                    assert(join_tokens(cur) == cur[0]);
                }
            } else {
                assert(pack_from(cur, toks, max)[k] == rest_chunks[k - 1]);
            }
        }
    } else {
        if cur.len() > 0 {
            lemma_join_push(cur, toks[0]);
        } else {
            assert(cur.push(toks[0]) =~= seq![toks[0]]);
        }
        lemma_pack_from_bounded(cur.push(toks[0]), toks.drop_first(), max);
        assert(pack_from(cur, toks, max) == pack_from(cur.push(toks[0]), toks.drop_first(), max));
    }
}

/// A chunk in good standing: non-empty, with no leading or trailing
/// delimiter.
pub open spec fn trimmed_nonempty(c: Seq<char>) -> bool {
    c.len() > 0 && !is_space(c[0]) && !is_space(c[c.len() - 1])
}

/// A space-joined buffer of well-formed tokens is non-empty and trimmed.
proof fn lemma_join_trimmed(ts: Seq<Seq<char>>)
    requires
        ts.len() > 0,
        forall|k: int| 0 <= k < ts.len() ==> wf_token(#[trigger] ts[k]),
    ensures
        trimmed_nonempty(join_tokens(ts)),
    decreases ts.len(),
{
    if ts.len() == 1 {
        assert(join_tokens(ts) == ts[0]);
        assert(wf_token(ts[0]));
    } else {
        lemma_join_trimmed(ts.drop_first());
        let j = join_tokens(ts);
        let rest = join_tokens(ts.drop_first());
        assert(j == ts[0] + seq![' '] + rest);
        assert(wf_token(ts[0]));
        assert(j[0] == ts[0][0]);
        assert(j[j.len() - 1] == rest[rest.len() - 1]);
    }
}

/// Every chunk packing emits is non-empty and trimmed, provided buffer and
/// tokens are well-formed.
proof fn lemma_pack_from_trimmed(cur: Seq<Seq<char>>, toks: Seq<Seq<char>>, max: nat)
    requires
        forall|k: int| 0 <= k < cur.len() ==> wf_token(#[trigger] cur[k]),
        forall|k: int| 0 <= k < toks.len() ==> wf_token(#[trigger] toks[k]),
    ensures
        forall|k: int|
            0 <= k < pack_from(cur, toks, max).len() ==> trimmed_nonempty(
                #[trigger] pack_from(cur, toks, max)[k],
            ),
    decreases toks.len(),
{
    if toks.len() == 0 {
        if cur.len() > 0 {
            lemma_join_trimmed(cur);
        }
    } else if cur.len() > 0 && join_tokens(cur).len() + toks[0].len() + 2 > max {
        lemma_join_trimmed(cur);
        lemma_pack_from_trimmed(seq![toks[0]], toks.drop_first(), max);
        let rest_chunks = pack_from(seq![toks[0]], toks.drop_first(), max);
        assert forall|k: int| 0 <= k < pack_from(cur, toks, max).len() implies trimmed_nonempty(
            #[trigger] pack_from(cur, toks, max)[k],
        ) by {
            if k == 0 {
                assert(pack_from(cur, toks, max)[0] == join_tokens(cur));
            } else {
                assert(pack_from(cur, toks, max)[k] == rest_chunks[k - 1]);
            }
        }
    } else {
        if cur.len() == 0 {
            assert(cur.push(toks[0]) =~= seq![toks[0]]);
        }
        lemma_pack_from_trimmed(cur.push(toks[0]), toks.drop_first(), max);
        assert(pack_from(cur, toks, max) == pack_from(cur.push(toks[0]), toks.drop_first(), max));
    }
}

/// Chunk text is always non-empty and whitespace-trimmed: no chunk is
/// empty, starts with a delimiter, or ends with one.
pub proof fn lemma_chunks_trimmed(text: Seq<char>, max: nat)
    ensures
        forall|k: int|
            0 <= k < spec_chunks(text, max).len() ==> trimmed_nonempty(
                #[trigger] spec_chunks(text, max)[k],
            ),
{
    lemma_spec_tokens_wf(text);
    lemma_pack_from_trimmed(Seq::empty(), spec_tokens(text), max);
}

/// Soft cap: every chunk of a text either has length at most the cap or is
/// a single token too long to fit, emitted unsplit.
pub proof fn lemma_chunk_size_bound(text: Seq<char>, max: nat)
    ensures
        forall|k: int|
            0 <= k < spec_chunks(text, max).len() ==> ((#[trigger] spec_chunks(text, max)[k]).len()
                <= max || wf_token(spec_chunks(text, max)[k])),
{
    lemma_spec_tokens_wf(text);
    lemma_pack_from_bounded(Seq::empty(), spec_tokens(text), max);
}

} // verus!
