use vstd::prelude::*;

use core::cmp::Ordering;

use jieba_rs::Jieba;

verus! {

/// `k` is where `a` and `b` first part: they agree before `k`, and at `k`
/// either `a` has ended while `b` goes on, or `a` has the smaller character.
pub open spec fn first_difference(a: Seq<char>, b: Seq<char>, k: int) -> bool {
    &&& 0 <= k <= a.len()
    &&& k <= b.len()
    &&& forall|j: int| 0 <= j < k ==> a[j] == b[j]
    &&& (k == a.len() && k < b.len()) || (k < a.len() && k < b.len() && a[k] < b[k])
}

/// Lexicographic order on texts, character by character: the order of
/// `String` in Rust, which compares UTF-8 bytes and so code points.
pub open spec fn lex_lt(a: Seq<char>, b: Seq<char>) -> bool {
    exists|k: int| first_difference(a, b, k)
}

pub proof fn lemma_lex_lt_irreflexive(a: Seq<char>)
    ensures
        !lex_lt(a, a),
{
    assert forall|k: int| !first_difference(a, a, k) by {}
}

pub proof fn lemma_lex_lt_transitive(a: Seq<char>, b: Seq<char>, c: Seq<char>)
    requires
        lex_lt(a, b),
        lex_lt(b, c),
    ensures
        lex_lt(a, c),
{
    let k1 = choose|k: int| first_difference(a, b, k);
    let k2 = choose|k: int| first_difference(b, c, k);
    if k1 < k2 {
        assert(first_difference(a, c, k1));
    } else if k2 < k1 {
        assert(first_difference(a, c, k2));
    } else {
        assert(first_difference(a, c, k1));
    }
}

/// Compares two texts in lexicographic order of their characters.
pub fn compare_words(a: &str, b: &str) -> (r: Ordering)
    ensures
        r == Ordering::Less ==> lex_lt(a@, b@),
        r == Ordering::Equal ==> a@ == b@,
        r == Ordering::Greater ==> lex_lt(b@, a@),
{
    let la = a.unicode_len();
    let lb = b.unicode_len();
    let mut i: usize = 0;
    while i < la && i < lb
        invariant
            la == a@.len(),
            lb == b@.len(),
            i <= la,
            i <= lb,
            forall|j: int| 0 <= j < i ==> a@[j] == b@[j],
        decreases la - i,
    {
        let ca = a.get_char(i);
        let cb = b.get_char(i);
        if ca < cb {
            assert(first_difference(a@, b@, i as int));
            return Ordering::Less;
        }
        if cb < ca {
            assert(first_difference(b@, a@, i as int));
            return Ordering::Greater;
        }
        i = i + 1;
    }
    if i == la && i == lb {
        assert(a@ =~= b@);
        Ordering::Equal
    } else if i == la {
        assert(first_difference(a@, b@, i as int));
        Ordering::Less
    } else {
        assert(first_difference(b@, a@, i as int));
        Ordering::Greater
    }
}

/// How many times `w` occurs in `ws`.
pub open spec fn occurrences(ws: Seq<Seq<char>>, w: Seq<char>) -> nat
    decreases ws.len(),
{
    if ws.len() == 0 {
        0
    } else {
        occurrences(ws.drop_last(), w) + if ws.last() == w {
            1nat
        } else {
            0nat
        }
    }
}

/// Words of fewer than two characters are left out of the frequency table.
pub open spec fn counted(w: Seq<char>) -> bool {
    w.len() >= 2
}

/// The texts of a sequence of strings.
pub open spec fn texts(v: Seq<String>) -> Seq<Seq<char>> {
    v.map_values(|s: String| s@)
}

/// The entries are in strictly increasing order of their words.
pub open spec fn sorted_by_word(t: Seq<(String, usize)>) -> bool {
    forall|i: int, j: int| 0 <= i < j < t.len() ==> lex_lt(#[trigger] t[i].0@, #[trigger] t[j].0@)
}

/// `t` is the frequency table of `ws`: one entry for each word of at least two
/// characters that occurs in `ws`, with the number of its occurrences, in
/// increasing order of the words.
pub open spec fn is_frequency_table(t: Seq<(String, usize)>, ws: Seq<Seq<char>>) -> bool {
    &&& sorted_by_word(t)
    &&& forall|i: int|
        0 <= i < t.len() ==> {
            &&& counted(#[trigger] t[i].0@)
            &&& occurrences(ws, t[i].0@) > 0
            &&& t[i].1 == occurrences(ws, t[i].0@)
        }
    &&& forall|w: Seq<char>|
        counted(w) && #[trigger] occurrences(ws, w) > 0 ==> exists|i: int|
            0 <= i < t.len() && t[i].0@ == w
}

/// What the table `t` gives for `w`: the count of its entry, or 0 where it has
/// none.
pub open spec fn frequency_in(t: Seq<(String, usize)>, w: Seq<char>) -> nat {
    if exists|i: int| 0 <= i < t.len() && t[i].0@ == w {
        t[choose|i: int| 0 <= i < t.len() && t[i].0@ == w].1 as nat
    } else {
        0
    }
}

proof fn lemma_occurrences_bound(ws: Seq<Seq<char>>, w: Seq<char>)
    ensures
        occurrences(ws, w) <= ws.len(),
    decreases ws.len(),
{
    if ws.len() > 0 {
        lemma_occurrences_bound(ws.drop_last(), w);
    }
}

/// Where `w` stands in the sorted table `t`: the first position whose word is
/// not below `w`, and whether the word there is `w`.
fn find_slot(t: &Vec<(String, usize)>, w: &str) -> (r: (usize, bool))
    requires
        sorted_by_word(t@),
    ensures
        r.0 <= t@.len(),
        forall|j: int| 0 <= j < r.0 ==> lex_lt(#[trigger] t@[j].0@, w@),
        r.1 ==> r.0 < t@.len() && t@[r.0 as int].0@ == w@,
        !r.1 ==> r.0 == t@.len() || lex_lt(w@, t@[r.0 as int].0@),
{
    let mut p: usize = 0;
    while p < t.len()
        invariant
            p <= t@.len(),
            forall|j: int| 0 <= j < p ==> lex_lt(#[trigger] t@[j].0@, w@),
        decreases t@.len() - p,
    {
        match compare_words(t[p].0.as_str(), w) {
            Ordering::Less => {
                p = p + 1;
            },
            Ordering::Equal => {
                return (p, true);
            },
            Ordering::Greater => {
                return (p, false);
            },
        }
    }
    (p, false)
}

/// The frequency table of `tokens`: each word of at least two characters that
/// occurs among them, with its number of occurrences, in lexicographic order.
pub fn count_words(tokens: &Vec<String>) -> (r: Vec<(String, usize)>)
    ensures
        is_frequency_table(r@, texts(tokens@)),
{
    let mut table: Vec<(String, usize)> = Vec::new();
    let mut k: usize = 0;
    while k < tokens.len()
        invariant
            k <= tokens@.len(),
            is_frequency_table(table@, texts(tokens@).subrange(0, k as int)),
            forall|i: int| 0 <= i < table@.len() ==> #[trigger] table@[i].1 <= k,
        decreases tokens@.len() - k,
    {
        let ghost ws = texts(tokens@).subrange(0, k as int);
        let ghost ws2 = texts(tokens@).subrange(0, k + 1);
        let ghost old_table = table@;
        let w = &tokens[k];
        assert(ws2.drop_last() =~= ws);
        assert(ws2.last() == w@);
        assert(forall|x: Seq<char>| #[trigger] occurrences(ws2, x) == occurrences(ws, x) + if x
            == w@ {
            1nat
        } else {
            0nat
        });
        if w.as_str().unicode_len() >= 2 {
            let (p, found) = find_slot(&table, w.as_str());
            proof {
                // no entry before `p` or after it holds `w`
                assert forall|j: int| 0 <= j < old_table.len() && j != p implies old_table[j].0@
                    != w@ by {
                    if j < p {
                        lemma_lex_lt_irreflexive(w@);
                    } else {
                        assert(lex_lt(old_table[p as int].0@, old_table[j].0@));
                        if found {
                            lemma_lex_lt_irreflexive(w@);
                        } else {
                            lemma_lex_lt_transitive(w@, old_table[p as int].0@, old_table[j].0@);
                            lemma_lex_lt_irreflexive(w@);
                        }
                    }
                }
            }
            if found {
                let entry = table.remove(p);
                table.insert(p, (entry.0, entry.1 + 1));
                proof {
                    assert(table@ =~= old_table.update(p as int, (entry.0, (entry.1 + 1) as usize)));
                    assert forall|x: Seq<char>|
                        counted(x) && #[trigger] occurrences(ws2, x) > 0 implies exists|i: int|
                        0 <= i < table@.len() && table@[i].0@ == x by {
                        if x == w@ {
                            assert(table@[p as int].0@ == x);
                        } else {
                            assert(occurrences(ws, x) > 0);
                            let i = choose|i: int| 0 <= i < old_table.len() && old_table[i].0@ == x;
                            assert(table@[i].0@ == x);
                        }
                    }
                }
            } else {
                proof {
                    if occurrences(ws, w@) > 0 {
                        let i = choose|i: int| 0 <= i < old_table.len() && old_table[i].0@ == w@;
                        if i == p {
                            lemma_lex_lt_irreflexive(w@);
                        }
                    }
                }
                let wc = w.clone();
                let ghost wg = wc;
                table.insert(p, (wc, 1));
                proof {
                    let t = table@;
                    assert(t =~= old_table.insert(p as int, (wg, 1usize)));
                    assert forall|i: int, j: int| 0 <= i < j < t.len() implies lex_lt(
                        #[trigger] t[i].0@,
                        #[trigger] t[j].0@,
                    ) by {
                        if j < p {
                        } else if j == p {
                        } else if i < p {
                            assert(t[p + 1] == old_table[p as int]);
                            if j > p + 1 {
                                assert(t[j] == old_table[j - 1]);
                                lemma_lex_lt_transitive(w@, t[p + 1].0@, t[j].0@);
                            }
                            lemma_lex_lt_transitive(t[i].0@, w@, t[j].0@);
                        } else if i == p {
                            if j > p + 1 {
                                lemma_lex_lt_transitive(w@, t[p + 1].0@, t[j].0@);
                            }
                        } else {
                            assert(old_table[i - 1] == t[i] && old_table[j - 1] == t[j]);
                        }
                    }
                    assert forall|x: Seq<char>|
                        counted(x) && #[trigger] occurrences(ws2, x) > 0 implies exists|i: int|
                        0 <= i < t.len() && t[i].0@ == x by {
                        if x == w@ {
                            assert(t[p as int].0@ == x);
                        } else {
                            assert(occurrences(ws, x) > 0);
                            let i = choose|i: int| 0 <= i < old_table.len() && old_table[i].0@ == x;
                            if i < p {
                                assert(t[i].0@ == x);
                            } else {
                                assert(t[i + 1].0@ == x);
                            }
                        }
                    }
                }
            }
        } else {
            proof {
                assert forall|x: Seq<char>|
                    counted(x) && #[trigger] occurrences(ws2, x) > 0 implies exists|i: int|
                    0 <= i < table@.len() && table@[i].0@ == x by {
                    assert(occurrences(ws, x) > 0);
                }
            }
        }
        k = k + 1;
    }
    assert(texts(tokens@).subrange(0, k as int) =~= texts(tokens@));
    table
}

/// What the table says of each word follows from what it is: a word of at
/// least two characters maps to the number of its occurrences, any other word
/// is absent.
pub proof fn lemma_frequency_table_exact(t: Seq<(String, usize)>, ws: Seq<Seq<char>>, w: Seq<char>)
    requires
        is_frequency_table(t, ws),
    ensures
        frequency_in(t, w) == if counted(w) {
            occurrences(ws, w)
        } else {
            0
        },
        !counted(w) ==> forall|i: int| 0 <= i < t.len() ==> t[i].0@ != w,
{
    if exists|i: int| 0 <= i < t.len() && t[i].0@ == w {
        let i = choose|i: int| 0 <= i < t.len() && t[i].0@ == w;
        assert(counted(t[i].0@));
    } else if counted(w) && occurrences(ws, w) > 0 {
        assert(exists|i: int| 0 <= i < t.len() && t[i].0@ == w);
    }
}

#[verifier::external_type_specification]
#[verifier::external_body]
pub struct ExJieba(Jieba);

/// The words, in order, into which the segmenter with the built-in dictionary
/// and the hidden Markov model cuts `text`.
pub uninterp spec fn segmented(text: Seq<char>) -> Seq<Seq<char>>;

/// Relies on `jieba_rs::Jieba::new`: a segmenter that holds the built-in
/// dictionary.
#[verifier::external_body]
fn default_segmenter() -> Jieba {
    Jieba::new()
}

/// Relies on `jieba_rs::Jieba::cut` with the hidden Markov model on: the words
/// of `text`, in order. Only segmenters with the built-in dictionary are made
/// here, so the words depend on the text alone.
#[verifier::external_body]
fn cut_words(jieba: &Jieba, text: &str) -> (r: Vec<String>)
    ensures
        texts(r@) == segmented(text@),
{
    jieba.cut(text, true).into_iter().map(|t| t.word.to_string()).collect()
}

/// The words of all the texts, in order: the segmented words of the first text,
/// then those of the second, and so on.
pub open spec fn segmented_all(docs: Seq<Seq<char>>) -> Seq<Seq<char>>
    decreases docs.len(),
{
    if docs.len() == 0 {
        seq![]
    } else {
        segmented_all(docs.drop_last()) + segmented(docs.last())
    }
}

/// Cuts each text into words and counts them: the frequency table of all the
/// words of `docs`.
pub fn word_frequencies(docs: &Vec<&str>) -> (r: Vec<(String, usize)>)
    ensures
        is_frequency_table(r@, segmented_all(docs@.map_values(|d: &str| d@))),
{
    let ghost views = docs@.map_values(|d: &str| d@);
    let jieba = default_segmenter();
    let mut tokens: Vec<String> = Vec::new();
    let mut i: usize = 0;
    while i < docs.len()
        invariant
            i <= docs@.len(),
            views == docs@.map_values(|d: &str| d@),
            texts(tokens@) == segmented_all(views.subrange(0, i as int)),
        decreases docs@.len() - i,
    {
        let ghost before = tokens@;
        let mut words = cut_words(&jieba, docs[i]);
        let ghost cut = words@;
        tokens.append(&mut words);
        proof {
            assert(views.subrange(0, i + 1).drop_last() =~= views.subrange(0, i as int));
            assert(texts(tokens@) =~= texts(before) + texts(cut));
        }
        i = i + 1;
    }
    assert(views.subrange(0, i as int) =~= views);
    count_words(&tokens)
}

} // verus!
