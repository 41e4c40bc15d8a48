use vstd::prelude::*;
use crate::text::{chars_of, string_from_chars, string_views};

verus! {

/// The length bound `n` as an unsigned size: a negative `n` wraps, as a cast
/// to `usize` does.
pub open spec fn limit(n: i32) -> int {
    if n >= 0 {
        n as int
    } else {
        usize::MAX + 1 + n
    }
}

fn length_limit(n: i32) -> (r: usize)
    ensures
        r == limit(n),
{
    if n >= 0 {
        n as usize
    } else {
        usize::MAX - ((-(n as i64) - 1) as usize)
    }
}

/// The merge after the strings `strs`: the chunks emitted, the chunk being
/// built, and whether the one allowed overflow has happened.
pub open spec fn merge_state(strs: Seq<Seq<char>>, n: i32) -> (Seq<Seq<char>>, Seq<char>, bool)
    decreases strs.len(),
{
    if strs.len() == 0 {
        (seq![], seq![], false)
    } else {
        let prev = merge_state(strs.drop_last(), n);
        let s = strs.last();
        if !prev.2 {
            let joined = if prev.1.len() > 0 { prev.1.push('\n') + s } else { s };
            if joined.len() > limit(n) {
                (prev.0.push(joined), seq![], true)
            } else {
                (prev.0, joined, false)
            }
        } else {
            let res = if prev.1.len() > 0 { prev.0.push(prev.1) } else { prev.0 };
            (res, s, true)
        }
    }
}

/// Strings joined by line feeds until the first chunk grows longer than the
/// bound; from then on each string is a chunk of its own. Empty chunks are
/// not emitted.
pub open spec fn merge_spec(strs: Seq<Seq<char>>, n: i32) -> Seq<Seq<char>> {
    let st = merge_state(strs, n);
    if st.1.len() > 0 {
        st.0.push(st.1)
    } else {
        st.0
    }
}

/// Merges `s` into chunks: strings are joined with line feeds until the
/// first chunk has more than `n` characters, after which every string
/// stands alone.
pub fn merge_strings(s: Vec<String>, n: i32) -> (r: Vec<String>)
    ensures
        string_views(r@) == merge_spec(string_views(s@), n),
{
    let lim = length_limit(n);
    let mut result: Vec<String> = Vec::new();
    let mut current: Vec<char> = Vec::new();
    let mut exceed = false;
    let mut i: usize = 0;
    while i < s.len()
        invariant
            i <= s.len(),
            lim == limit(n),
            (string_views(result@), current@, exceed) == merge_state(
                string_views(s@).take(i as int),
                n,
            ),
        decreases s.len() - i,
    {
        let ghost sv = string_views(s@);
        assert(sv.take(i + 1).drop_last() =~= sv.take(i as int));
        assert(sv.take(i + 1).last() == s@[i as int]@);
        let ghost r0 = result@;
        let ghost c0 = current@;
        let mut cs = chars_of(s[i].as_str());
        if !exceed {
            let ghost joined = if c0.len() > 0 { c0.push('\n') + s@[i as int]@ } else { s@[i as int]@ };
            if current.len() > 0 {
                current.push('\n');
            }
            current.append(&mut cs);
            assert(current@ =~= joined);
            if current.len() > lim {
                exceed = true;
                result.push(string_from_chars(&current));
                current = Vec::new();
                assert(string_views(result@) =~= string_views(r0).push(joined));
            }
        } else {
            if current.len() > 0 {
                result.push(string_from_chars(&current));
                assert(string_views(result@) =~= string_views(r0).push(c0));
            }
            current = cs;
        }
        i += 1;
    }
    assert(string_views(s@).take(s.len() as int) =~= string_views(s@));
    if current.len() > 0 {
        let ghost r0 = result@;
        result.push(string_from_chars(&current));
        assert(string_views(result@) =~= string_views(r0).push(current@));
    }
    result
}

/// The sentences of `s`: the pieces between full stops `。`, each but the
/// last with its full stop kept. The last piece may be empty.
pub open spec fn sentence_pieces(s: Seq<char>) -> Seq<Seq<char>>
    decreases s.len(),
{
    if s.len() == 0 {
        seq![seq![]]
    } else {
        let p = sentence_pieces(s.drop_last());
        let c = s.last();
        let p2 = p.update(p.len() - 1, p.last().push(c));
        if c == '。' {
            p2.push(seq![])
        } else {
            p2
        }
    }
}

proof fn lemma_sentence_pieces_nonempty(s: Seq<char>)
    ensures
        sentence_pieces(s).len() >= 1,
    decreases s.len(),
{
    if s.len() > 0 {
        lemma_sentence_pieces_nonempty(s.drop_last());
    }
}

/// Views of a sequence of character vectors.
pub open spec fn char_views(v: Seq<Vec<char>>) -> Seq<Seq<char>> {
    v.map_values(|c: Vec<char>| c@)
}

/// The sentences of `cs`, as in `sentence_pieces`.
fn split_sentences(cs: &Vec<char>) -> (r: Vec<Vec<char>>)
    ensures
        char_views(r@) == sentence_pieces(cs@),
{
    let mut done: Vec<Vec<char>> = Vec::new();
    let mut cur: Vec<char> = Vec::new();
    let mut i: usize = 0;
    while i < cs.len()
        invariant
            i <= cs.len(),
            char_views(done@).push(cur@) == sentence_pieces(cs@.take(i as int)),
        decreases cs.len() - i,
    {
        let ghost d0 = char_views(done@);
        let ghost c0 = cur@;
        assert(cs@.take(i + 1).drop_last() =~= cs@.take(i as int));
        let c = cs[i];
        cur.push(c);
        if c == '。' {
            done.push(cur);
            cur = Vec::new();
            assert(char_views(done@).push(cur@) =~= d0.push(c0).update(d0.len() as int, c0.push(c)).push(
                seq![],
            ));
        } else {
            assert(char_views(done@).push(cur@) =~= d0.push(c0).update(d0.len() as int, c0.push(c)));
        }
        i += 1;
    }
    assert(cs@.take(cs.len() as int) =~= cs@);
    done.push(cur);
    done
}

/// The characters with the Unicode White_Space property.
pub open spec fn white_space(c: char) -> bool {
    ('\u{9}' <= c <= '\u{d}') || c == ' ' || c == '\u{85}' || c == '\u{a0}' || c == '\u{1680}'
        || ('\u{2000}' <= c <= '\u{200a}') || c == '\u{2028}' || c == '\u{2029}' || c
        == '\u{202f}' || c == '\u{205f}' || c == '\u{3000}'
}

/// `s` without its trailing white space.
pub open spec fn trim_white_end(s: Seq<char>) -> Seq<char>
    decreases s.len(),
{
    if s.len() > 0 && white_space(s.last()) {
        trim_white_end(s.drop_last())
    } else {
        s
    }
}

/// Relies on str::trim_end: `s` with its trailing White_Space characters
/// removed.
#[verifier::external_body]
fn trim_end_of(s: &str) -> (r: String)
    ensures
        r@ == trim_white_end(s@),
{
    s.trim_end().to_string()
}

/// The chunking state: the chunks emitted and the buffer being filled.
pub type ChunkState = (Seq<Seq<char>>, Seq<char>);

/// One sentence into the state: a short one joins the buffer, which is
/// emitted once it reaches the bound; a long one is a chunk of its own.
pub open spec fn absorb(st: ChunkState, piece: Seq<char>, lim: int) -> ChunkState {
    if piece.len() < lim {
        let b = st.1 + piece;
        if b.len() >= lim {
            (st.0.push(b), seq![])
        } else {
            (st.0, b)
        }
    } else {
        (st.0.push(piece), st.1)
    }
}

/// The sentences `pieces` into the state, in order.
pub open spec fn absorb_all(st: ChunkState, pieces: Seq<Seq<char>>, lim: int) -> ChunkState
    decreases pieces.len(),
{
    if pieces.len() == 0 {
        st
    } else {
        absorb(absorb_all(st, pieces.drop_last(), lim), pieces.last(), lim)
    }
}

/// A short string into the state: it joins the buffer with a line feed, and
/// the buffer is emitted once it reaches the bound, trimmed at its end when
/// `trim` holds.
pub open spec fn short_step(st: ChunkState, s: Seq<char>, lim: int, trim: bool) -> ChunkState {
    let b = (st.1 + s).push('\n');
    if b.len() >= lim {
        (st.0.push(if trim { trim_white_end(b) } else { b }), seq![])
    } else {
        (st.0, b)
    }
}

/// The chunking state after the strings `strs`.
pub open spec fn chunk_state(strs: Seq<Seq<char>>, n: i32, trim: bool) -> ChunkState
    decreases strs.len(),
{
    if strs.len() == 0 {
        (seq![], seq![])
    } else {
        let st = chunk_state(strs.drop_last(), n, trim);
        let s = strs.last();
        if s.len() < limit(n) {
            short_step(st, s, limit(n), trim)
        } else {
            absorb_all(st, sentence_pieces(s), limit(n))
        }
    }
}

/// The chunks for `strs`: the state's chunks and then its buffer, if any.
pub open spec fn chunk_spec(strs: Seq<Seq<char>>, n: i32, trim: bool) -> Seq<Seq<char>> {
    let st = chunk_state(strs, n, trim);
    if st.1.len() > 0 {
        st.0.push(st.1)
    } else {
        st.0
    }
}

fn absorb_exec(result: &mut Vec<String>, buffer: &mut Vec<char>, piece: &Vec<char>, lim: usize)
    ensures
        (string_views(final(result)@), final(buffer)@) == absorb(
            (string_views(old(result)@), old(buffer)@),
            piece@,
            lim as int,
        ),
{
    let ghost r0 = string_views(result@);
    let ghost b0 = buffer@;
    if piece.len() < lim {
        let mut j: usize = 0;
        while j < piece.len()
            invariant
                j <= piece.len(),
                buffer@ == b0 + piece@.take(j as int),
            decreases piece.len() - j,
        {
            buffer.push(piece[j]);
            assert(b0 + piece@.take(j + 1) =~= (b0 + piece@.take(j as int)).push(piece@[j as int]));
            j += 1;
        }
        assert(piece@.take(piece.len() as int) =~= piece@);
        if buffer.len() >= lim {
            result.push(string_from_chars(buffer));
            assert(string_views(result@) =~= r0.push(b0 + piece@));
            *buffer = Vec::new();
        }
    } else {
        result.push(string_from_chars(piece));
        assert(string_views(result@) =~= r0.push(piece@));
    }
}

fn chunk_strings(s: Vec<String>, n: i32, trim: bool) -> (r: Vec<String>)
    ensures
        string_views(r@) == chunk_spec(string_views(s@), n, trim),
{
    let lim = length_limit(n);
    let mut result: Vec<String> = Vec::new();
    let mut buffer: Vec<char> = Vec::new();
    let mut i: usize = 0;
    while i < s.len()
        invariant
            i <= s.len(),
            lim == limit(n),
            (string_views(result@), buffer@) == chunk_state(string_views(s@).take(i as int), n, trim),
        decreases s.len() - i,
    {
        let ghost sv = string_views(s@);
        assert(sv.take(i + 1).drop_last() =~= sv.take(i as int));
        assert(sv.take(i + 1).last() == s@[i as int]@);
        let cs = chars_of(s[i].as_str());
        if cs.len() < lim {
            let ghost r0 = string_views(result@);
            let ghost b0 = buffer@;
            let mut c = cs;
            buffer.append(&mut c);
            buffer.push('\n');
            assert(buffer@ =~= (b0 + s@[i as int]@).push('\n'));
            if buffer.len() >= lim {
                let joined = string_from_chars(&buffer);
                if trim {
                    result.push(trim_end_of(joined.as_str()));
                } else {
                    result.push(joined);
                }
                assert(string_views(result@) =~= r0.push(
                    if trim { trim_white_end(buffer@) } else { buffer@ },
                ));
                buffer = Vec::new();
            }
        } else {
            let pieces = split_sentences(&cs);
            let ghost st0 = (string_views(result@), buffer@);
            let ghost all = char_views(pieces@);
            let mut k: usize = 0;
            while k < pieces.len()
                invariant
                    lim == limit(n),
                    k <= pieces.len(),
                    all == char_views(pieces@),
                    (string_views(result@), buffer@) == absorb_all(st0, all.take(k as int), lim as int),
                decreases pieces.len() - k,
            {
                assert(all.take(k + 1).drop_last() =~= all.take(k as int));
                absorb_exec(&mut result, &mut buffer, &pieces[k], lim);
                k += 1;
            }
            assert(all.take(k as int) =~= all);
        }
        i += 1;
    }
    assert(string_views(s@).take(s.len() as int) =~= string_views(s@));
    if buffer.len() > 0 {
        let ghost r0 = string_views(result@);
        result.push(string_from_chars(&buffer));
        assert(string_views(result@) =~= r0.push(buffer@));
    }
    result
}

/// Packs `s` into chunks of about `n` characters: strings shorter than `n`
/// gather in a buffer, each followed by a line feed, and the buffer is
/// emitted, trailing whitespace trimmed, once it reaches `n`; longer strings
/// are cut into sentences, which gather in the same way (untrimmed) or stand
/// alone when they reach `n` themselves.
pub fn optimize_strings_length(s: Vec<String>, n: i32) -> (r: Vec<String>)
    ensures
        string_views(r@) == chunk_spec(string_views(s@), n, true),
{
    chunk_strings(s, n, true)
}

/// As `optimize_strings_length`, but a buffer of short strings is emitted
/// as it is, final line feed included.
pub fn optimize_string_lengths(s: Vec<String>, n: i32) -> (r: Vec<String>)
    ensures
        string_views(r@) == chunk_spec(string_views(s@), n, false),
{
    chunk_strings(s, n, false)
}

} // verus!
