use vstd::prelude::*;
use vstd::string::StrSliceExecFns;

verus! {

/// Separators between words: ASCII whitespace and ASCII punctuation.
pub open spec fn is_separator(c: u32) -> bool {
    c == 9 || c == 10 || c == 12 || c == 13 || c == 32
        || (33 <= c <= 47) || (58 <= c <= 64) || (91 <= c <= 96) || (123 <= c <= 126)
}

/// Case folding of one code point: ASCII upper case to lower case.
pub open spec fn fold(c: u32) -> u32 {
    if 65 <= c <= 90 { (c + 32) as u32 } else { c }
}

/// The code points of a string.
pub open spec fn codes(s: Seq<char>) -> Seq<u32> {
    s.map_values(|c: char| c as u32)
}

/// A code-point sequence with every element folded.
pub open spec fn folded(s: Seq<u32>) -> Seq<u32> {
    s.map_values(|c: u32| fold(c))
}

/// `t[i..j]` is a whole word: non-empty, free of separators, and bounded by
/// separators or the ends of `t`.
pub open spec fn word_at(t: Seq<u32>, i: int, j: int) -> bool {
    &&& 0 <= i < j <= t.len()
    &&& forall|k: int| i <= k < j ==> !is_separator(#[trigger] t[k])
    &&& (i == 0 || is_separator(t[i - 1]))
    &&& (j == t.len() || is_separator(t[j]))
}

/// `tok` is the folded form of a word of `t` that ends before `bound`.
pub open spec fn word_before(t: Seq<u32>, tok: Seq<u32>, bound: int) -> bool {
    exists|i: int, j: int| #[trigger] word_at(t, i, j) && j < bound && tok == folded(t.subrange(i, j))
}

/// `tok` is a token of `text`: the folded form of one of its words.
pub open spec fn is_token_of(text: Seq<char>, tok: Seq<u32>) -> bool {
    word_before(codes(text), tok, codes(text).len() as int + 1)
}

/// The folded code points of `s`.
pub fn folded_codes(s: &str) -> (r: Vec<u32>)
    ensures
        r@ == folded(codes(s@)),
{
    let n = s.unicode_len();
    let mut r: Vec<u32> = Vec::new();
    let mut i: usize = 0;
    while i < n
        invariant
            n == s@.len(),
            i <= n,
            r@ == folded(codes(s@)).take(i as int),
        decreases n - i,
    {
        let c = s.get_char(i) as u32;
        let f = if 65 <= c && c <= 90 { c + 32 } else { c };
        r.push(f);
        i = i + 1;
        assert(r@ =~= folded(codes(s@)).take(i as int));
    }
    assert(r@ =~= folded(codes(s@)));
    r
}

fn separator(c: u32) -> (r: bool)
    ensures
        r == is_separator(c),
{
    c == 9 || c == 10 || c == 12 || c == 13 || c == 32
        || (33 <= c && c <= 47) || (58 <= c && c <= 64) || (91 <= c && c <= 96) || (123 <= c && c <= 126)
}

proof fn lemma_word_ending_at(t: Seq<u32>, start: int, i: int, j: int)
    requires
        0 <= start <= j <= t.len(),
        start == 0 || is_separator(t[start - 1]),
        forall|k: int| start <= k < j ==> !is_separator(#[trigger] t[k]),
        word_at(t, i, j),
    ensures
        i == start,
{
    if i < start {
        assert(!is_separator(t[start - 1]));
    } else if i > start {
        assert(!is_separator(t[i - 1]));
    }
}

/// The tokens of `text`, each once or more, in order of appearance.
pub fn tokenize(text: &str) -> (r: Vec<Vec<u32>>)
    ensures
        forall|tok: Seq<u32>| (exists|m: int| 0 <= m < r@.len() && (#[trigger] r@[m])@ == tok)
            <==> is_token_of(text@, tok),
{
    let n = text.unicode_len();
    let ghost t = codes(text@);
    let mut out: Vec<Vec<u32>> = Vec::new();
    let mut cur: Vec<u32> = Vec::new();
    let mut start: usize = 0;
    let mut pos: usize = 0;
    while pos < n
        invariant
            n == text@.len(),
            t == codes(text@),
            start <= pos <= n,
            start == 0 || is_separator(t[start - 1]),
            forall|k: int| start <= k < pos ==> !is_separator(#[trigger] t[k]),
            cur@ == folded(t.subrange(start as int, pos as int)),
            forall|tok: Seq<u32>| (exists|m: int| 0 <= m < out@.len() && (#[trigger] out@[m])@ == tok)
                <==> word_before(t, tok, pos as int),
        decreases n - pos,
    {
        let c = text.get_char(pos) as u32;
        assert(c == t[pos as int]);
        if separator(c) {
            let ghost old_out = out@;
            let ghost w = cur@;
            if start < pos {
                out.push(cur);
            }
            proof {
                assert forall|tok: Seq<u32>| (exists|m: int| 0 <= m < out@.len() && (#[trigger] out@[m])@ == tok)
                    <==> #[trigger] word_before(t, tok, pos + 1) by {
                    if word_before(t, tok, pos + 1) && !word_before(t, tok, pos as int) {
                        let (i, j) = choose|i: int, j: int| #[trigger] word_at(t, i, j) && j < pos + 1
                            && tok == folded(t.subrange(i, j));
                        lemma_word_ending_at(t, start as int, i, j);
                        assert(out@[out@.len() - 1]@ == tok);
                    }
                    if exists|m: int| 0 <= m < out@.len() && (#[trigger] out@[m])@ == tok {
                        let m = choose|m: int| 0 <= m < out@.len() && (#[trigger] out@[m])@ == tok;
                        if m < old_out.len() {
                            assert(old_out[m]@ == tok);
                        } else {
                            assert(word_at(t, start as int, pos as int));
                        }
                    }
                    if word_before(t, tok, pos as int) {
                        let m = choose|m: int| 0 <= m < old_out.len() && (#[trigger] old_out[m])@ == tok;
                        assert(out@[m] == old_out[m]);
                    }
                }
            }
            cur = Vec::new();
            start = pos + 1;
            assert(cur@ =~= folded(t.subrange(start as int, pos + 1)));
        } else {
            let f = if 65 <= c && c <= 90 { c + 32 } else { c };
            cur.push(f);
            proof {
                assert(cur@ =~= folded(t.subrange(start as int, pos + 1)));
                assert forall|tok: Seq<u32>| #[trigger] word_before(t, tok, pos + 1)
                    <==> word_before(t, tok, pos as int) by {
                    if word_before(t, tok, pos + 1) {
                        let (i, j) = choose|i: int, j: int| #[trigger] word_at(t, i, j) && j < pos + 1
                            && tok == folded(t.subrange(i, j));
                        if j == pos {
                            assert(is_separator(t[j]));
                        }
                        assert(word_at(t, i, j) && j < pos && tok == folded(t.subrange(i, j)));
                    }
                    if word_before(t, tok, pos as int) {
                        let (i, j) = choose|i: int, j: int| #[trigger] word_at(t, i, j) && j < pos
                            && tok == folded(t.subrange(i, j));
                        assert(word_at(t, i, j) && j < pos + 1 && tok == folded(t.subrange(i, j)));
                    }
                }
            }
        }
        pos = pos + 1;
    }
    let ghost old_out = out@;
    if start < n {
        out.push(cur);
    }
    proof {
        assert forall|tok: Seq<u32>| (exists|m: int| 0 <= m < out@.len() && (#[trigger] out@[m])@ == tok)
            <==> #[trigger] is_token_of(text@, tok) by {
            if word_before(t, tok, n + 1) && !word_before(t, tok, n as int) {
                let (i, j) = choose|i: int, j: int| #[trigger] word_at(t, i, j) && j < n + 1
                    && tok == folded(t.subrange(i, j));
                lemma_word_ending_at(t, start as int, i, j);
                assert(out@[out@.len() - 1]@ == tok);
            }
            if exists|m: int| 0 <= m < out@.len() && (#[trigger] out@[m])@ == tok {
                let m = choose|m: int| 0 <= m < out@.len() && (#[trigger] out@[m])@ == tok;
                if m < old_out.len() {
                    assert(old_out[m]@ == tok);
                } else {
                    assert(word_at(t, start as int, n as int));
                }
            }
            if word_before(t, tok, n as int) {
                let m = choose|m: int| 0 <= m < old_out.len() && (#[trigger] old_out[m])@ == tok;
                assert(out@[m] == old_out[m]);
            }
        }
    }
    out
}

} // verus!
