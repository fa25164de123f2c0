//! Whitespace tokenization: the chunker operates on whitespace-delimited
//! words, so this module defines what a word is, splits text into words, and
//! joins words back together with single spaces.

use vstd::prelude::*;

verus! {

/// The characters with the Unicode `White_Space` property: exactly the set
/// that `char::is_whitespace` recognises, and hence the separator set used
/// when splitting text into words.
pub open spec fn is_space_char(c: char) -> bool {
    ||| c == ' '
    ||| c == '\u{0009}'
    ||| c == '\u{000A}'
    ||| c == '\u{000B}'
    ||| c == '\u{000C}'
    ||| c == '\u{000D}'
    ||| c == '\u{0085}'
    ||| c == '\u{00A0}'
    ||| c == '\u{1680}'
    ||| c == '\u{2000}'
    ||| c == '\u{2001}'
    ||| c == '\u{2002}'
    ||| c == '\u{2003}'
    ||| c == '\u{2004}'
    ||| c == '\u{2005}'
    ||| c == '\u{2006}'
    ||| c == '\u{2007}'
    ||| c == '\u{2008}'
    ||| c == '\u{2009}'
    ||| c == '\u{200A}'
    ||| c == '\u{2028}'
    ||| c == '\u{2029}'
    ||| c == '\u{202F}'
    ||| c == '\u{205F}'
    ||| c == '\u{3000}'
}

/// Whether `c` separates words.
pub fn is_space(c: char) -> (r: bool)
    ensures
        r == is_space_char(c),
{
    c == ' ' || c == '\u{0009}' || c == '\u{000A}' || c == '\u{000B}' || c == '\u{000C}'
        || c == '\u{000D}' || c == '\u{0085}' || c == '\u{00A0}' || c == '\u{1680}'
        || c == '\u{2000}' || c == '\u{2001}' || c == '\u{2002}' || c == '\u{2003}'
        || c == '\u{2004}' || c == '\u{2005}' || c == '\u{2006}' || c == '\u{2007}'
        || c == '\u{2008}' || c == '\u{2009}' || c == '\u{200A}' || c == '\u{2028}'
        || c == '\u{2029}' || c == '\u{202F}' || c == '\u{205F}' || c == '\u{3000}'
}

/// A word: a non-empty run of non-whitespace characters.
pub open spec fn is_word(w: Seq<char>) -> bool {
    &&& w.len() > 0
    &&& forall|i: int| 0 <= i < w.len() ==> !is_space_char(w[i])
}

/// The words of `s` that remain to be produced, given that the non-space run
/// read so far is `cur`.
pub open spec fn words_from(s: Seq<char>, cur: Seq<char>) -> Seq<Seq<char>>
    decreases s.len(),
{
    if s.len() == 0 {
        if cur.len() == 0 {
            Seq::empty()
        } else {
            seq![cur]
        }
    } else if is_space_char(s[0]) {
        if cur.len() == 0 {
            words_from(s.drop_first(), Seq::empty())
        } else {
            seq![cur] + words_from(s.drop_first(), Seq::empty())
        }
    } else {
        words_from(s.drop_first(), cur.push(s[0]))
    }
}

/// The whitespace-delimited words of `s`, in order: what
/// `str::split_whitespace` yields.
pub open spec fn words_of(s: Seq<char>) -> Seq<Seq<char>> {
    words_from(s, Seq::empty())
}

/// Words joined by single spaces.
pub open spec fn join_words(ws: Seq<Seq<char>>) -> Seq<char>
    decreases ws.len(),
{
    if ws.len() == 0 {
        Seq::empty()
    } else if ws.len() == 1 {
        ws[0]
    } else {
        ws[0] + seq![' '] + join_words(ws.drop_first())
    }
}

/// Whether every element is a word.
pub open spec fn all_words(ws: Seq<Seq<char>>) -> bool {
    forall|j: int| 0 <= j < ws.len() ==> is_word(#[trigger] ws[j])
}

/// Every word that splitting produces is a non-empty, space-free run,
/// provided the run read so far is space-free.
proof fn lemma_words_from_wf(s: Seq<char>, cur: Seq<char>)
    requires
        forall|i: int| 0 <= i < cur.len() ==> !is_space_char(cur[i]),
    ensures
        all_words(words_from(s, cur)),
    decreases s.len(),
{
    if s.len() == 0 {
        if cur.len() > 0 {
            assert(words_from(s, cur) == seq![cur]);
            assert(is_word(cur));
            assert(words_from(s, cur)[0] == cur);
        }
    } else if is_space_char(s[0]) {
        lemma_words_from_wf(s.drop_first(), Seq::empty());
        if cur.len() > 0 {
            let rest = words_from(s.drop_first(), Seq::empty());
            assert(words_from(s, cur) == seq![cur] + rest);
            assert forall|j: int| 0 <= j < words_from(s, cur).len() implies is_word(
                #[trigger] words_from(s, cur)[j],
            ) by {
                if j == 0 {
                    assert((seq![cur] + rest)[0] == cur);
                    assert(is_word(cur));
                } else {
                    assert((seq![cur] + rest)[j] == rest[j - 1]);
                    assert(is_word(rest[j - 1]));
                }
            }
        }
    } else {
        assert(forall|i: int|
            0 <= i < cur.push(s[0]).len() ==> !is_space_char(cur.push(s[0])[i]));
        lemma_words_from_wf(s.drop_first(), cur.push(s[0]));
    }
}

/// Every word of a text is a non-empty, space-free run.
pub proof fn lemma_words_of_wf(s: Seq<char>)
    ensures
        all_words(words_of(s)),
{
    lemma_words_from_wf(s, Seq::empty());
}

/// Reading a space-free prefix only extends the current run.
proof fn lemma_words_from_prefix(p: Seq<char>, s: Seq<char>, cur: Seq<char>)
    requires
        forall|i: int| 0 <= i < p.len() ==> !is_space_char(p[i]),
    ensures
        words_from(p + s, cur) == words_from(s, cur + p),
    decreases p.len(),
{
    if p.len() == 0 {
        assert(p + s =~= s);
        assert(cur + p =~= cur);
    } else {
        assert((p + s)[0] == p[0]);
        assert((p + s).drop_first() =~= p.drop_first() + s);
        lemma_words_from_prefix(p.drop_first(), s, cur.push(p[0]));
        assert(cur.push(p[0]) + p.drop_first() =~= cur + p);
    }
}

/// Splitting is a left inverse of joining: the words of a space-joined word
/// sequence are exactly that sequence.
pub proof fn lemma_words_of_join(ws: Seq<Seq<char>>)
    requires
        all_words(ws),
    ensures
        words_of(join_words(ws)) == ws,
    decreases ws.len(),
{
    if ws.len() == 0 {
        assert(words_of(join_words(ws)) =~= ws);
    } else if ws.len() == 1 {
        assert(join_words(ws) == ws[0]);
        lemma_words_from_prefix(ws[0], Seq::empty(), Seq::empty());
        assert(ws[0] + Seq::<char>::empty() =~= ws[0]);
        assert(Seq::<char>::empty() + ws[0] =~= ws[0]);
        assert(words_from(Seq::<char>::empty(), ws[0]) =~= seq![ws[0]]);
        assert(words_of(join_words(ws)) =~= ws);
    } else {
        let tail = seq![' '] + join_words(ws.drop_first());
        assert(join_words(ws) == ws[0] + tail);
        lemma_words_from_prefix(ws[0], tail, Seq::empty());
        assert(Seq::<char>::empty() + ws[0] =~= ws[0]);
        assert(tail[0] == ' ');
        assert(tail.drop_first() =~= join_words(ws.drop_first()));
        assert(words_from(tail, ws[0]) == seq![ws[0]] + words_from(
            join_words(ws.drop_first()),
            Seq::empty(),
        ));
        assert forall|j: int| 0 <= j < ws.drop_first().len() implies is_word(
            #[trigger] ws.drop_first()[j],
        ) by {
            assert(ws.drop_first()[j] == ws[j + 1]);
        }
        lemma_words_of_join(ws.drop_first());
        assert(seq![ws[0]] + ws.drop_first() =~= ws);
    }
}

/// Joining one more word appends a space and the word (or is the word itself
/// when nothing was joined yet).
pub proof fn lemma_join_words_push(ws: Seq<Seq<char>>, w: Seq<char>)
    ensures
        ws.len() == 0 ==> join_words(ws.push(w)) == w,
        ws.len() > 0 ==> join_words(ws.push(w)) == join_words(ws) + seq![' '] + w,
    decreases ws.len(),
{
    if ws.len() == 0 {
        assert(ws.push(w)[0] =~= w);
    } else if ws.len() == 1 {
        assert(ws.push(w).drop_first() =~= seq![w]);
        assert(join_words(seq![w]) == w);
        assert(ws.push(w)[0] =~= ws[0]);
        assert(join_words(ws.push(w)) == ws.push(w)[0] + seq![' '] + join_words(
            ws.push(w).drop_first(),
        ));
        assert(join_words(ws.push(w)) == ws[0] + seq![' '] + w);
    } else {
        lemma_join_words_push(ws.drop_first(), w);
        assert(ws.push(w).drop_first() =~= ws.drop_first().push(w));
        assert(ws[0] + seq![' '] + (join_words(ws.drop_first()) + seq![' '] + w) =~= (ws[0]
            + seq![' '] + join_words(ws.drop_first())) + seq![' '] + w);
    }
}

/// Relies on `String::push`: appends the character to the end of the string.
#[verifier::external_body]
pub(crate) fn push_char(s: &mut String, c: char)
    ensures
        final(s)@ == old(s)@.push(c),
{
    s.push(c);
}

/// Splits `text` into its whitespace-delimited words, in order.
pub fn split_words(text: &str) -> (ws: Vec<String>)
    ensures
        ws@.map_values(|w: String| w@) == words_of(text@),
{
    let n = text.unicode_len();
    let mut ws: Vec<String> = Vec::new();
    let mut cur: String = String::new();
    let mut i: usize = 0;
    proof {
        assert(text@.subrange(0, n as int) =~= text@);
        assert(ws@.map_values(|w: String| w@) + words_from(text@, cur@) =~= words_from(
            text@,
            cur@,
        ));
    }
    while i < n
        invariant
            i <= n,
            n == text@.len(),
            words_of(text@) == ws@.map_values(|w: String| w@) + words_from(
                text@.subrange(i as int, n as int),
                cur@,
            ),
        decreases n - i,
    {
        let c = text.get_char(i);
        proof {
            assert(text@.subrange(i as int, n as int).drop_first() =~= text@.subrange(
                i as int + 1,
                n as int,
            ));
            assert(text@.subrange(i as int, n as int)[0] == text@[i as int]);
        }
        let ghost rest = text@.subrange(i as int + 1, n as int);
        let ghost here = text@.subrange(i as int, n as int);
        let ghost prev_cur = cur@;
        if is_space(c) {
            if !cur.as_str().is_empty() {
                let ghost old_ws = ws@;
                ws.push(cur);
                cur = String::new();
                proof {
                    assert(ws@.map_values(|w: String| w@) =~= old_ws.map_values(|w: String| w@)
                        + seq![prev_cur]);
                    assert(words_from(here, prev_cur) == seq![prev_cur] + words_from(
                        rest,
                        Seq::empty(),
                    ));
                    assert((old_ws.map_values(|w: String| w@) + seq![prev_cur]) + words_from(
                        rest,
                        Seq::empty(),
                    ) =~= old_ws.map_values(|w: String| w@) + (seq![prev_cur] + words_from(
                        rest,
                        Seq::empty(),
                    )));
                }
            } else {
                proof {
                    assert(prev_cur =~= Seq::<char>::empty());
                    assert(words_from(here, prev_cur) == words_from(rest, Seq::empty()));
                }
            }
        } else {
            push_char(&mut cur, c);
            proof {
                assert(cur@ == prev_cur.push(text@[i as int]));
                assert(words_from(here, prev_cur) == words_from(rest, prev_cur.push(here[0])));
            }
        }
        i += 1;
    }
    proof {
        assert(text@.subrange(n as int, n as int) =~= Seq::<char>::empty());
    }
    if !cur.as_str().is_empty() {
        let ghost old_ws = ws@;
        let ghost old_cur = cur@;
        ws.push(cur);
        proof {
            assert(ws@.map_values(|w: String| w@) =~= old_ws.map_values(|w: String| w@)
                + seq![old_cur]);
        }
    } else {
        proof {
            assert(ws@.map_values(|w: String| w@) + Seq::<Seq<char>>::empty() =~= ws@.map_values(
                |w: String| w@,
            ));
        }
    }
    ws
}

/// Joins `ws[from..to]` with single spaces.
pub fn join_range(ws: &Vec<String>, from: usize, to: usize) -> (r: String)
    requires
        from <= to <= ws@.len(),
    ensures
        r@ == join_words(ws@.map_values(|w: String| w@).subrange(from as int, to as int)),
{
    let mut r = String::new();
    let mut k = from;
    while k < to
        invariant
            from <= k <= to <= ws@.len(),
            r@ == join_words(ws@.map_values(|w: String| w@).subrange(from as int, k as int)),
        decreases to - k,
    {
        let ghost done = ws@.map_values(|w: String| w@).subrange(from as int, k as int);
        if k > from {
            r.append(" ");
        }
        r.append(ws[k].as_str());
        proof {
            reveal_strlit(" ");
            assert(" "@ =~= seq![' ']);
            lemma_join_words_push(done, ws@[k as int]@);
            assert(ws@.map_values(|w: String| w@).subrange(from as int, k as int + 1) =~= done.push(
                ws@[k as int]@,
            ));
            if k > from {
                assert(r@ =~= join_words(done) + seq![' '] + ws@[k as int]@);
            } else {
                assert(r@ =~= ws@[k as int]@);
            }
        }
        k += 1;
    }
    proof {
        if from == to {
            assert(ws@.map_values(|w: String| w@).subrange(from as int, to as int) =~= Seq::<
                Seq<char>,
            >::empty());
        }
    }
    r
}

/// Whether two string slices hold the same characters.
pub fn str_eq(a: &str, b: &str) -> (r: bool)
    ensures
        r == (a@ == b@),
{
    let na = a.unicode_len();
    let nb = b.unicode_len();
    if na != nb {
        return false;
    }
    let mut i: usize = 0;
    while i < na
        invariant
            i <= na,
            na == a@.len(),
            na == b@.len(),
            forall|j: int| 0 <= j < i ==> a@[j] == b@[j],
        decreases na - i,
    {
        if a.get_char(i) != b.get_char(i) {
            return false;
        }
        i += 1;
    }
    proof {
        assert(a@ =~= b@);
    }
    true
}

/// Strict lexicographic order on character sequences by code point: the
/// order in which byte-wise comparison puts UTF-8 strings.
pub open spec fn lex_lt(a: Seq<char>, b: Seq<char>) -> bool
    decreases a.len(),
{
    if b.len() == 0 {
        false
    } else if a.len() == 0 {
        true
    } else if a[0] != b[0] {
        (a[0] as u32) < (b[0] as u32)
    } else {
        lex_lt(a.drop_first(), b.drop_first())
    }
}

/// Whether `a` comes strictly before `b` in lexicographic order.
pub fn str_lt(a: &str, b: &str) -> (r: bool)
    ensures
        r == lex_lt(a@, b@),
{
    let na = a.unicode_len();
    let nb = b.unicode_len();
    let mut i: usize = 0;
    proof {
        assert(a@.skip(0) =~= a@);
        assert(b@.skip(0) =~= b@);
    }
    loop
        invariant
            i <= na,
            i <= nb,
            na == a@.len(),
            nb == b@.len(),
            lex_lt(a@, b@) == lex_lt(a@.skip(i as int), b@.skip(i as int)),
        decreases na - i,
    {
        if i >= nb {
            proof {
                assert(b@.skip(i as int).len() == 0);
            }
            return false;
        }
        if i >= na {
            proof {
                assert(a@.skip(i as int).len() == 0);
                assert(b@.skip(i as int).len() > 0);
            }
            return true;
        }
        let ca = a.get_char(i);
        let cb = b.get_char(i);
        proof {
            assert(a@.skip(i as int)[0] == a@[i as int]);
            assert(b@.skip(i as int)[0] == b@[i as int]);
            assert(a@.skip(i as int).drop_first() =~= a@.skip(i as int + 1));
            assert(b@.skip(i as int).drop_first() =~= b@.skip(i as int + 1));
        }
        if ca != cb {
            return (ca as u32) < (cb as u32);
        }
        i += 1;
    }
}

/// Whether `s` contains no word at all (it is empty or all whitespace).
pub open spec fn all_space(s: Seq<char>) -> bool {
    forall|i: int| 0 <= i < s.len() ==> is_space_char(s[i])
}

/// Whether `text` is blank: empty or whitespace only.
pub fn is_blank(text: &str) -> (r: bool)
    ensures
        r == all_space(text@),
{
    let n = text.unicode_len();
    let mut i: usize = 0;
    while i < n
        invariant
            i <= n,
            n == text@.len(),
            forall|j: int| 0 <= j < i ==> is_space_char(text@[j]),
        decreases n - i,
    {
        if !is_space(text.get_char(i)) {
            return false;
        }
        i += 1;
    }
    true
}

} // verus!
