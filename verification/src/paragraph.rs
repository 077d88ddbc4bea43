//! A package description as it is shown: split into paragraphs at blank
//! lines, and each paragraph filled into lines narrower than a given width.

use vstd::prelude::*;

use crate::list::width;
use crate::select::concat_map;
use crate::text::string_of;

verus! {

/// `c` is white space: it has the Unicode `White_Space` property, which is
/// what `char::is_whitespace` tests.
pub open spec fn is_space(c: char) -> bool {
    ||| '\t' <= c && c <= '\r'
    ||| c == ' ' || c == '\u{85}' || c == '\u{a0}' || c == '\u{1680}'
    ||| '\u{2000}' <= c && c <= '\u{200a}'
    ||| c == '\u{2028}' || c == '\u{2029}' || c == '\u{202f}' || c == '\u{205f}' || c == '\u{3000}'
}

/// Whether `c` is white space.
fn space(c: char) -> (r: bool)
    ensures
        r == is_space(c),
{
    ('\t' <= c && c <= '\r') || c == ' ' || c == '\u{85}' || c == '\u{a0}' || c == '\u{1680}' || ('\u{2000}' <= c
        && c <= '\u{200a}') || c == '\u{2028}' || c == '\u{2029}' || c == '\u{202f}' || c == '\u{205f}' || c
        == '\u{3000}'
}

/// The pieces of `s` between line feeds; there is one more piece than there
/// are line feeds.
pub open spec fn pieces(s: Seq<char>) -> Seq<Seq<char>>
    decreases s.len(),
{
    if s.len() == 0 {
        seq![Seq::empty()]
    } else {
        let r = pieces(s.drop_last());
        if s.last() == '\n' {
            r.push(Seq::empty())
        } else {
            r.update(r.len() - 1, r.last().push(s.last()))
        }
    }
}

/// The words of `s`: its maximal runs of characters that are not white
/// space.
pub open spec fn words(s: Seq<char>) -> Seq<Seq<char>>
    decreases s.len(),
{
    if s.len() == 0 {
        Seq::empty()
    } else {
        let r = words(s.drop_last());
        let c = s.last();
        if is_space(c) {
            r
        } else if s.len() >= 2 && !is_space(s[s.len() - 2]) {
            r.update(r.len() - 1, r.last().push(c))
        } else {
            r.push(seq![c])
        }
    }
}

/// `s` holds white space only.
pub open spec fn blank(s: Seq<char>) -> bool {
    forall|i: int| 0 <= i < s.len() ==> is_space(#[trigger] s[i])
}

/// The paragraphs of `ps`: its maximal runs of pieces that are not blank.
pub open spec fn paragraphs(ps: Seq<Seq<char>>) -> Seq<Seq<Seq<char>>>
    decreases ps.len(),
{
    if ps.len() == 0 {
        Seq::empty()
    } else {
        let r = paragraphs(ps.drop_last());
        let p = ps.last();
        if blank(p) {
            r
        } else if ps.len() >= 2 && !blank(ps[ps.len() - 2]) {
            r.update(r.len() - 1, r.last().push(p))
        } else {
            r.push(seq![p])
        }
    }
}

/// The words of a paragraph, line after line.
pub open spec fn paragraph_words(para: Seq<Seq<char>>) -> Seq<Seq<char>> {
    concat_map(para, |p: Seq<char>| words(p))
}

/// Filling lines with `ws`, word after word: the lines given out so far and
/// the line being filled. A word joins the line, after a space, while the
/// widths of the line and the word add up to less than `limit`; otherwise
/// the line is given out (even when empty) and the word starts the next.
pub open spec fn fill(ws: Seq<Seq<char>>, limit: int) -> (Seq<Seq<char>>, Seq<char>)
    decreases ws.len(),
{
    if ws.len() == 0 {
        (Seq::empty(), Seq::empty())
    } else {
        let (done, cur) = fill(ws.drop_last(), limit);
        let w = ws.last();
        if width(cur) + width(w) < limit {
            (
                done,
                if cur.len() == 0 {
                    w
                } else {
                    cur + seq![' '] + w
                },
            )
        } else {
            (done.push(cur), w)
        }
    }
}

/// The lines that `ws` fill, the last one given out when it is not empty.
pub open spec fn wrap(ws: Seq<Seq<char>>, limit: int) -> Seq<Seq<char>> {
    let (done, cur) = fill(ws, limit);
    if cur.len() > 0 {
        done.push(cur)
    } else {
        done
    }
}

/// The lines of each paragraph of `text`, filled to less than `limit`.
///
/// `text` is cut into pieces at line feeds; a piece that is white space only
/// separates paragraphs, and a paragraph's words are those of its pieces.
/// (Cutting into lines as `str::lines` does also drops a carriage return
/// before a line feed and an empty last line; both are white space and
/// change neither paragraphs nor words.)
pub open spec fn description_spec(text: Seq<char>, limit: int) -> Seq<Seq<Seq<char>>> {
    paragraphs(pieces(text)).map_values(|para: Seq<Seq<char>>| wrap(paragraph_words(para), limit))
}

/// The views of a list of character vectors.
pub open spec fn chars_view(v: Seq<Vec<char>>) -> Seq<Seq<char>> {
    v.map_values(|x: Vec<char>| x@)
}

/// The views of a list of strings.
pub open spec fn strings_view(v: Seq<String>) -> Seq<Seq<char>> {
    v.map_values(|x: String| x@)
}

/// A piece is never missing: `pieces` gives at least one.
proof fn lemma_pieces_len(s: Seq<char>)
    ensures
        pieces(s).len() >= 1,
    decreases s.len(),
{
    if s.len() > 0 {
        lemma_pieces_len(s.drop_last());
    }
}

/// The lines being filled hold no more than `limit` bytes, but for single
/// words.
proof fn lemma_fill_width(ws: Seq<Seq<char>>, limit: int)
    requires
        limit >= 0,
    ensures
        forall|k: int|
            0 <= k < fill(ws, limit).0.len() ==> width(#[trigger] fill(ws, limit).0[k]) <= limit || ws.contains(
                fill(ws, limit).0[k],
            ),
        width(fill(ws, limit).1) <= limit || ws.contains(fill(ws, limit).1),
    decreases ws.len(),
{
    if ws.len() == 0 {
        assert(width(Seq::<char>::empty()) == 0);
    } else {
        let p = ws.drop_last();
        lemma_fill_width(p, limit);
        let (done, cur) = fill(p, limit);
        let w = ws.last();
        assert(ws.contains(w)) by {
            assert(ws[ws.len() - 1] == w);
        }
        assert forall|x: Seq<char>| p.contains(x) implies ws.contains(x) by {
            let i = choose|i: int| 0 <= i < p.len() && p[i] == x;
            assert(ws[i] == x);
        }
        if width(cur) + width(w) < limit {
            if cur.len() > 0 {
                lemma_width_concat(cur, seq![' ']);
                lemma_width_concat(cur + seq![' '], w);
                lemma_char_width(' ');
            } else {
                assert(width(cur) == 0) by {
                    assert(cur =~= Seq::<char>::empty());
                }
            }
        } else {
            let next = done.push(cur);
            assert forall|k: int| 0 <= k < next.len() implies width(#[trigger] next[k]) <= limit || ws.contains(
                next[k],
            ) by {
                if k < done.len() {
                    assert(next[k] == done[k]);
                }
            }
        }
    }
}

/// Every line of a filled paragraph is at most `limit` bytes wide, unless
/// it is a single word wider than that.
pub proof fn lemma_wrap_width(ws: Seq<Seq<char>>, limit: int)
    requires
        limit >= 0,
    ensures
        forall|k: int|
            0 <= k < wrap(ws, limit).len() ==> width(#[trigger] wrap(ws, limit)[k]) <= limit || ws.contains(
                wrap(ws, limit)[k],
            ),
{
    lemma_fill_width(ws, limit);
    let (done, cur) = fill(ws, limit);
    if cur.len() > 0 {
        let lines = done.push(cur);
        assert forall|k: int| 0 <= k < lines.len() implies width(#[trigger] lines[k]) <= limit || ws.contains(
            lines[k],
        ) by {
            if k < done.len() {
                assert(lines[k] == done[k]);
            }
        }
    }
}

/// Cuts `cs` into its pieces between line feeds.
fn split_pieces(cs: &Vec<char>) -> (r: Vec<Vec<char>>)
    ensures
        chars_view(r@) == pieces(cs@),
{
    let mut out: Vec<Vec<char>> = Vec::new();
    let mut cur: Vec<char> = Vec::new();
    let mut i: usize = 0;
    assert(cs@.take(0) =~= Seq::<char>::empty());
    assert(chars_view(out@).push(cur@) =~= seq![Seq::<char>::empty()]);
    while i < cs.len()
        invariant
            i <= cs.len(),
            chars_view(out@).push(cur@) == pieces(cs@.take(i as int)),
        decreases cs.len() - i,
    {
        let c = cs[i];
        let ghost before = chars_view(out@);
        let ghost cur_before = cur@;
        proof {
            assert(cs@.take(i + 1).drop_last() =~= cs@.take(i as int));
            assert(cs@.take(i + 1).last() == c);
        }
        if c == '\n' {
            out.push(cur);
            cur = Vec::new();
            assert(chars_view(out@) =~= before.push(cur_before));
            assert(chars_view(out@).push(cur@) =~= before.push(cur_before).push(Seq::<char>::empty()));
        } else {
            cur.push(c);
            let ghost r = before.push(cur_before);
            assert(chars_view(out@).push(cur@) =~= r.update(r.len() - 1, r.last().push(c)));
        }
        i = i + 1;
    }
    assert(cs@.take(i as int) =~= cs@);
    let ghost before = chars_view(out@);
    let ghost cur_before = cur@;
    out.push(cur);
    assert(chars_view(out@) =~= before.push(cur_before));
    out
}

/// The words of `s`.
fn split_words(s: &Vec<char>) -> (r: Vec<Vec<char>>)
    ensures
        chars_view(r@) == words(s@),
{
    let mut out: Vec<Vec<char>> = Vec::new();
    let mut cur: Vec<char> = Vec::new();
    let mut i: usize = 0;
    assert(s@.take(0) =~= Seq::<char>::empty());
    assert(chars_view(out@) =~= Seq::<Seq<char>>::empty());
    while i < s.len()
        invariant
            i <= s.len(),
            words(s@.take(i as int)) == if cur@.len() > 0 {
                chars_view(out@).push(cur@)
            } else {
                chars_view(out@)
            },
            cur@.len() > 0 <==> (i > 0 && !is_space(s@[i - 1])),
        decreases s.len() - i,
    {
        let c = s[i];
        let ghost before = chars_view(out@);
        let ghost cur_before = cur@;
        proof {
            assert(s@.take(i + 1).drop_last() =~= s@.take(i as int));
            assert(s@.take(i + 1).last() == c);
            if i > 0 {
                assert(s@.take(i + 1)[i - 1] == s@[i - 1]);
            }
        }
        if space(c) {
            if cur.len() > 0 {
                out.push(cur);
                cur = Vec::new();
                assert(chars_view(out@) =~= before.push(cur_before));
            }
        } else if cur.len() > 0 {
            cur.push(c);
            let ghost r = before.push(cur_before);
            assert(before.push(cur@) =~= r.update(r.len() - 1, r.last().push(c)));
        } else {
            cur.push(c);
            assert(cur@ =~= seq![c]);
        }
        i = i + 1;
    }
    assert(s@.take(i as int) =~= s@);
    if cur.len() > 0 {
        let ghost before = chars_view(out@);
        let ghost cur_before = cur@;
        out.push(cur);
        assert(chars_view(out@) =~= before.push(cur_before));
    }
    out
}

/// Whether `s` holds white space only.
fn all_space(s: &Vec<char>) -> (r: bool)
    ensures
        r == blank(s@),
{
    let mut i: usize = 0;
    while i < s.len()
        invariant
            i <= s.len(),
            forall|k: int| 0 <= k < i ==> is_space(#[trigger] s@[k]),
        decreases s.len() - i,
    {
        if !space(s[i]) {
            return false;
        }
        i = i + 1;
    }
    true
}


/// The views of a list of lists of strings.
pub open spec fn lines_view(v: Seq<Vec<String>>) -> Seq<Seq<Seq<char>>> {
    v.map_values(|x: Vec<String>| strings_view(x@))
}

/// The views of a list of lists of character vectors.
pub open spec fn nested_view(v: Seq<Vec<Vec<char>>>) -> Seq<Seq<Seq<char>>> {
    v.map_values(|x: Vec<Vec<char>>| chars_view(x@))
}

/// The words of each paragraph of `ps`.
pub open spec fn paragraphs_words(ps: Seq<Seq<char>>) -> Seq<Seq<Seq<char>>> {
    paragraphs(ps).map_values(|para: Seq<Seq<char>>| paragraph_words(para))
}

/// The width of a concatenation is the sum of the widths.
proof fn lemma_width_concat(a: Seq<char>, b: Seq<char>)
    ensures
        width(a + b) == width(a) + width(b),
    decreases a.len(),
{
    if a.len() == 0 {
        assert(a + b =~= b);
    } else {
        assert((a + b).drop_first() =~= a.drop_first() + b);
        assert((a + b)[0] == a[0]);
        lemma_width_concat(a.drop_first(), b);
    }
}

/// The width of one character, by the range of its code point.
proof fn lemma_char_width(c: char)
    ensures
        width(seq![c]) == if (c as u32) < 0x80 {
            1int
        } else if (c as u32) < 0x800 {
            2int
        } else if (c as u32) < 0x10000 {
            3int
        } else {
            4int
        },
{
    assert(seq![c].drop_first() =~= Seq::<char>::empty());
    assert(seq![c][0] == c);
    assert(vstd::utf8::encode_utf8(Seq::<char>::empty()) =~= Seq::<u8>::empty());
    assert(vstd::utf8::encode_utf8(seq![c]) =~= vstd::utf8::encode_scalar(c as u32));
    vstd::utf8::char_is_scalar(c);
}

/// The width of character `c`.
fn char_width(c: char) -> (r: usize)
    ensures
        r == width(seq![c]),
{
    proof {
        lemma_char_width(c);
    }
    let n = c as u32;
    if n < 0x80 {
        1
    } else if n < 0x800 {
        2
    } else if n < 0x10000 {
        3
    } else {
        4
    }
}

/// The width of `v`, or `cap` when that is smaller.
fn capped_width(v: &Vec<char>, cap: usize) -> (r: usize)
    ensures
        r == if width(v@) < cap {
            width(v@)
        } else {
            cap as int
        },
{
    if cap == 0 {
        return 0;
    }
    let mut acc: usize = 0;
    let mut i: usize = 0;
    assert(v@.take(0) =~= Seq::<char>::empty());
    while i < v.len()
        invariant
            i <= v.len(),
            acc == width(v@.take(i as int)),
            acc < cap,
        decreases v.len() - i,
    {
        let w = char_width(v[i]);
        proof {
            assert(v@.take(i as int) + seq![v@[i as int]] =~= v@.take(i + 1));
            lemma_width_concat(v@.take(i as int), seq![v@[i as int]]);
        }
        if w >= cap - acc {
            proof {
                assert(v@.take(i + 1) + v@.skip(i + 1) =~= v@);
                lemma_width_concat(v@.take(i + 1), v@.skip(i + 1));
            }
            return cap;
        }
        acc = acc + w;
        i = i + 1;
    }
    assert(v@.take(i as int) =~= v@);
    acc
}

/// Appends the characters of `src` to `dst`.
fn append_chars(dst: &mut Vec<char>, src: &Vec<char>)
    ensures
        final(dst)@ == old(dst)@ + src@,
{
    let mut i: usize = 0;
    while i < src.len()
        invariant
            i <= src.len(),
            dst@ == old(dst)@ + src@.take(i as int),
        decreases src.len() - i,
    {
        dst.push(src[i]);
        assert(dst@ =~= old(dst)@ + src@.take(i + 1));
        i = i + 1;
    }
    assert(src@.take(i as int) =~= src@);
}

/// Copies of the words of `src`, appended to `dst`.
fn append_words(dst: &mut Vec<Vec<char>>, src: &Vec<Vec<char>>)
    ensures
        chars_view(final(dst)@) == chars_view(old(dst)@) + chars_view(src@),
{
    let mut i: usize = 0;
    while i < src.len()
        invariant
            i <= src.len(),
            chars_view(dst@) == chars_view(old(dst)@) + chars_view(src@).take(i as int),
        decreases src.len() - i,
    {
        let mut copy: Vec<char> = Vec::new();
        append_chars(&mut copy, &src[i]);
        let ghost before = chars_view(dst@);
        dst.push(copy);
        assert(chars_view(dst@) =~= before.push(src@[i as int]@));
        assert(chars_view(dst@) =~= chars_view(old(dst)@) + chars_view(src@).take(i + 1));
        i = i + 1;
    }
    assert(chars_view(src@).take(i as int) =~= chars_view(src@));
}

/// The lines that the words `ws` fill, each narrower than `limit`
/// unless it is a single word.
fn wrap_words(ws: &Vec<Vec<char>>, limit: usize) -> (r: Vec<String>)
    ensures
        strings_view(r@) == wrap(chars_view(ws@), limit as int),
{
    let ghost wv = chars_view(ws@);
    let mut done: Vec<String> = Vec::new();
    let mut cur: Vec<char> = Vec::new();
    let mut cw: usize = 0;
    let mut i: usize = 0;
    assert(wv.take(0) =~= Seq::<Seq<char>>::empty());
    assert(strings_view(done@) =~= Seq::<Seq<char>>::empty());
    assert(width(Seq::<char>::empty()) == 0);
    while i < ws.len()
        invariant
            i <= ws.len(),
            wv == chars_view(ws@),
            fill(wv.take(i as int), limit as int) == (strings_view(done@), cur@),
            cw == if width(cur@) < limit {
                width(cur@)
            } else {
                limit as int
            },
        decreases ws.len() - i,
    {
        let w = &ws[i];
        let ww = capped_width(w, limit);
        let ghost before = strings_view(done@);
        let ghost cur_before = cur@;
        proof {
            assert(wv.take(i + 1).drop_last() =~= wv.take(i as int));
            assert(wv.take(i + 1).last() == w@);
        }
        if ww < limit && cw < limit - ww {
            if cur.len() > 0 {
                cur.push(' ');
                append_chars(&mut cur, w);
                proof {
                    assert(cur@ =~= cur_before + seq![' '] + w@);
                    lemma_width_concat(cur_before, seq![' ']);
                    lemma_width_concat(cur_before + seq![' '], w@);
                    lemma_char_width(' ');
                }
                cw = cw + 1 + ww;
            } else {
                append_chars(&mut cur, w);
                assert(cur@ =~= w@);
                cw = ww;
            }
        } else {
            done.push(string_of(&cur));
            assert(strings_view(done@) =~= before.push(cur_before));
            cur = Vec::new();
            append_chars(&mut cur, w);
            assert(cur@ =~= w@);
            cw = ww;
        }
        i = i + 1;
    }
    assert(wv.take(i as int) =~= wv);
    if cur.len() > 0 {
        let ghost before = strings_view(done@);
        done.push(string_of(&cur));
        assert(strings_view(done@) =~= before.push(cur@));
    }
    done
}

/// The words of each paragraph of the pieces `ps`.
fn split_paragraphs(ps: &Vec<Vec<char>>) -> (r: Vec<Vec<Vec<char>>>)
    ensures
        nested_view(r@) == paragraphs_words(chars_view(ps@)),
{
    let ghost pv = chars_view(ps@);
    let mut out: Vec<Vec<Vec<char>>> = Vec::new();
    let mut cur: Vec<Vec<char>> = Vec::new();
    let mut open = false;
    let mut i: usize = 0;
    assert(pv.take(0) =~= Seq::<Seq<char>>::empty());
    assert(nested_view(out@) =~= Seq::<Seq<Seq<char>>>::empty());
    assert(paragraphs_words(pv.take(0)) =~= Seq::<Seq<Seq<char>>>::empty());
    while i < ps.len()
        invariant
            i <= ps.len(),
            pv == chars_view(ps@),
            paragraphs_words(pv.take(i as int)) == if open {
                nested_view(out@).push(chars_view(cur@))
            } else {
                nested_view(out@)
            },
            open ==> paragraphs(pv.take(i as int)).len() == out@.len() + 1,
            !open ==> paragraphs(pv.take(i as int)).len() == out@.len(),
            open <==> (i > 0 && !blank(pv[i - 1])),
        decreases ps.len() - i,
    {
        let p = &ps[i];
        let ghost before = nested_view(out@);
        let ghost cur_before = chars_view(cur@);
        let ghost prev = paragraphs(pv.take(i as int));
        proof {
            assert(pv.take(i + 1).drop_last() =~= pv.take(i as int));
            assert(pv.take(i + 1).last() == p@);
            assert(pv[i as int] == p@);
            if i > 0 {
                assert(pv.take(i + 1)[i - 1] == pv[i - 1]);
            }
        }
        if all_space(p) {
            if open {
                out.push(cur);
                cur = Vec::new();
                assert(nested_view(out@) =~= before.push(cur_before));
            }
            open = false;
        } else if open {
            let ws = split_words(p);
            append_words(&mut cur, &ws);
            proof {
                let k = prev.len() - 1;
                let next = prev.update(k, prev.last().push(p@));
                assert(paragraphs(pv.take(i + 1)) == next);
                assert(prev.last().push(p@).drop_last() =~= prev.last());
                assert(paragraph_words(prev.last().push(p@)) == paragraph_words(prev.last()) + words(p@));
                let after = before.push(chars_view(cur@));
                assert(before.len() == k);
                assert forall|j: int| 0 <= j < next.len() implies paragraphs_words(pv.take(i + 1))[j] == after[j] by {
                    if j < k {
                        assert(next[j] == prev[j]);
                        assert(paragraphs_words(pv.take(i as int))[j] == before[j]);
                    } else {
                        assert(paragraphs_words(pv.take(i as int))[j] == cur_before);
                    }
                }
                assert(paragraphs_words(pv.take(i + 1)) =~= after);
            }
        } else {
            let ws = split_words(p);
            cur = Vec::new();
            append_words(&mut cur, &ws);
            open = true;
            proof {
                let next = prev.push(seq![p@]);
                assert(paragraphs(pv.take(i + 1)) == next);
                assert(seq![p@].drop_last() =~= Seq::<Seq<char>>::empty());
                assert(concat_map(Seq::<Seq<char>>::empty(), |q: Seq<char>| words(q)) =~= Seq::<Seq<char>>::empty());
                assert(paragraph_words(seq![p@]) =~= words(p@));
                assert(chars_view(cur@) =~= words(p@));
                let after = before.push(chars_view(cur@));
                assert(before.len() == prev.len());
                assert forall|j: int| 0 <= j < next.len() implies paragraphs_words(pv.take(i + 1))[j] == after[j] by {
                    if j < prev.len() {
                        assert(next[j] == prev[j]);
                        assert(paragraphs_words(pv.take(i as int))[j] == before[j]);
                    }
                }
                assert(paragraphs_words(pv.take(i + 1)) =~= after);
            }
        }
        i = i + 1;
    }
    assert(pv.take(i as int) =~= pv);
    if open {
        let ghost before = nested_view(out@);
        let ghost cur_before = chars_view(cur@);
        out.push(cur);
        assert(nested_view(out@) =~= before.push(cur_before));
    }
    out
}

/// The lines of each paragraph of `text`: paragraphs are separated by lines
/// of white space only, and the words of each are filled into lines, a word
/// joining a line while the widths (in UTF-8 bytes) of the line and the word
/// add up to less than `limit`. A word as wide as `limit` or wider stands on
/// a line of its own, and when it comes first it is preceded by an empty
/// line.
pub fn wrap_paragraphs(text: &str, limit: usize) -> (r: Vec<Vec<String>>)
    ensures
        lines_view(r@) == description_spec(text@, limit as int),
{
    let cs = crate::text::chars_of(text);
    let ps = split_pieces(&cs);
    let paras = split_paragraphs(&ps);
    let ghost target = description_spec(text@, limit as int);
    let mut out: Vec<Vec<String>> = Vec::new();
    let mut k: usize = 0;
    assert(nested_view(paras@).len() == paras@.len());
    assert(target.len() == paragraphs(pieces(text@)).len());
    assert(lines_view(out@) =~= target.take(0));
    while k < paras.len()
        invariant
            k <= paras.len(),
            nested_view(paras@) == paragraphs_words(pieces(text@)),
            target == description_spec(text@, limit as int),
            target.len() == paras.len(),
            out@.len() == k,
            lines_view(out@) == target.take(k as int),
        decreases paras.len() - k,
    {
        let lines = wrap_words(&paras[k], limit);
        let ghost before = lines_view(out@);
        proof {
            assert(nested_view(paras@)[k as int] == chars_view(paras@[k as int]@));
            assert(target[k as int] == wrap(paragraph_words(paragraphs(pieces(text@))[k as int]), limit as int));
        }
        let ghost old_out = out@;
        out.push(lines);
        assert(out@ == old_out.push(lines));
        assert forall|j: int| 0 <= j < k + 1 implies #[trigger] lines_view(out@)[j]
            == target.take(k + 1)[j] by {
            if j < k {
                assert(out@[j] == old_out[j]);
                assert(before[j] == target.take(k as int)[j]);
            }
        }
        assert(lines_view(out@) =~= target.take(k + 1));
        k = k + 1;
    }
    assert(target.take(k as int) =~= target);
    out
}

} // verus!
