//! Character validation and lexical splitting of raw input words.
//!
//! The validator rejects any word holding a character outside the fixed
//! alphabet `{(, ), 0, 1, +, -, /, *}`. The splitter cuts a word into atomic
//! symbols: maximal runs of `0`/`1` digits stay together, every other
//! character becomes a one-character symbol of its own.

use vstd::prelude::*;

verus! {

/// Whether `c` is one of the two binary digits.
pub open spec fn is_bit(c: char) -> bool {
    c == '0' || c == '1'
}

/// Whether `c` belongs to the allowed input alphabet.
pub open spec fn char_allowed(c: char) -> bool {
    c == '(' || c == ')' || c == '0' || c == '1' || c == '+' || c == '-' || c == '/' || c == '*'
}

/// Whether every character of the word `w` is allowed.
pub open spec fn word_allowed(w: Seq<char>) -> bool {
    forall|j: int| 0 <= j < w.len() ==> char_allowed(#[trigger] w[j])
}

/// Whether every character of every word is allowed.
pub open spec fn spec_valid_chars(words: Seq<Seq<char>>) -> bool {
    forall|i: int| 0 <= i < words.len() ==> word_allowed(#[trigger] words[i])
}

/// The atomic symbols of the word `s`, scanning left to right: consecutive
/// binary digits accumulate into one digit-run symbol; any other character is
/// a symbol by itself. Stated by recursion on the last character: a final
/// digit extends the last symbol exactly when the character before it is a
/// digit too, and every other final character closes a symbol of its own.
pub open spec fn spec_split(s: Seq<char>) -> Seq<Seq<char>>
    decreases s.len(),
{
    if s.len() == 0 {
        Seq::empty()
    } else {
        let rest = spec_split(s.drop_last());
        let c = s.last();
        if is_bit(c) && s.len() >= 2 && is_bit(s[s.len() - 2]) {
            rest.update(rest.len() - 1, rest.last().push(c))
        } else {
            rest.push(seq![c])
        }
    }
}

/// The symbols of all words in order, concatenated.
pub open spec fn spec_split_all(words: Seq<Seq<char>>) -> Seq<Seq<char>>
    decreases words.len(),
{
    if words.len() == 0 {
        Seq::empty()
    } else {
        spec_split(words[0]) + spec_split_all(words.skip(1))
    }
}

/// Splitting distributes over concatenation of word sequences.
pub proof fn lemma_split_all_append(a: Seq<Seq<char>>, b: Seq<Seq<char>>)
    ensures
        spec_split_all(a + b) == spec_split_all(a) + spec_split_all(b),
    decreases a.len(),
{
    if a.len() == 0 {
        assert(a + b =~= b);
        assert(spec_split_all(a) + spec_split_all(b) =~= spec_split_all(b));
    } else {
        assert((a + b)[0] == a[0]);
        assert((a + b).skip(1) =~= a.skip(1) + b);
        lemma_split_all_append(a.skip(1), b);
        assert(spec_split(a[0]) + (spec_split_all(a.skip(1)) + spec_split_all(b)) =~= (
        spec_split(a[0]) + spec_split_all(a.skip(1))) + spec_split_all(b));
    }
}

/// A non-empty word splits into at least one symbol.
pub proof fn lemma_split_nonempty(s: Seq<char>)
    requires
        s.len() > 0,
    ensures
        spec_split(s).len() > 0,
    decreases s.len(),
{
    if s.len() > 1 {
        lemma_split_nonempty(s.drop_last());
    }
}

/// Splitting is idempotent on atoms: a single-character word splits into the
/// one-element sequence holding exactly that word.
pub proof fn lemma_split_single(c: char)
    ensures
        spec_split(seq![c]) == seq![seq![c]],
{
    reveal_with_fuel(spec_split, 2);
    assert(seq![c].drop_last() =~= Seq::<char>::empty());
    assert(spec_split(seq![c]) =~= seq![seq![c]]);
}

/// Returns whether every character of every word of `tokens` belongs to the
/// allowed alphabet `{(, ), 0, 1, +, -, /, *}`.
pub fn validate_chars(tokens: &[String]) -> (r: bool)
    ensures
        r == spec_valid_chars(tokens.deep_view()),
{
    let ghost words = tokens.deep_view();
    let n = tokens.len();
    let mut i: usize = 0;
    while i < n
        invariant
            0 <= i <= n == tokens@.len(),
            words == tokens.deep_view(),
            forall|k: int| 0 <= k < i ==> word_allowed(#[trigger] words[k]),
        decreases n - i,
    {
        let w: &str = tokens[i].as_str();
        let wn = w.unicode_len();
        let mut j: usize = 0;
        while j < wn
            invariant
                0 <= j <= wn == w@.len(),
                w@ == words[i as int],
                0 <= i < words.len(),
                words == tokens.deep_view(),
                forall|k: int| 0 <= k < j ==> char_allowed(#[trigger] w@[k]),
            decreases wn - j,
        {
            let c = w.get_char(j);
            let ok = match c {
                '(' => true,
                ')' => true,
                '0' => true,
                '1' => true,
                '+' => true,
                '-' => true,
                '/' => true,
                '*' => true,
                _ => false,
            };
            if !ok {
                proof {
                    assert(!char_allowed(words[i as int][j as int]));
                    assert(!word_allowed(words[i as int]));
                    assert(!spec_valid_chars(words));
                }
                return false;
            }
            j = j + 1;
        }
        assert(word_allowed(words[i as int]));
        i = i + 1;
    }
    true
}

/// Splits the word `token` into its atomic symbols, e.g. `"(1001+"` into
/// `["(", "1001", "+"]`. Maximal runs of `0`/`1` digits become one symbol;
/// every other character becomes a one-character symbol. An empty word
/// yields an empty sequence.
pub fn split_string(token: &str) -> (r: Vec<String>)
    ensures
        r.deep_view() == spec_split(token@),
{
    let n = token.unicode_len();
    let mut ret: Vec<String> = Vec::new();
    // The pending digit run is token[run_start..i]; it is empty iff the
    // character before position i is absent or not a digit.
    let mut run_start: usize = 0;
    let mut i: usize = 0;
    while i < n
        invariant
            0 <= run_start <= i <= n == token@.len(),
            spec_split(token@.take(i as int)) == ret.deep_view() + (if run_start < i {
                seq![token@.subrange(run_start as int, i as int)]
            } else {
                Seq::<Seq<char>>::empty()
            }),
            run_start < i <==> (i > 0 && is_bit(token@[i as int - 1])),
            run_start < i ==> (forall|k: int|
                run_start <= k < i ==> is_bit(#[trigger] token@[k])),
        decreases n - i,
    {
        let ghost prefix = token@.take(i as int);
        let ghost prefix1 = token@.take(i as int + 1);
        proof {
            assert(prefix1.drop_last() =~= prefix);
            assert(prefix1.last() == token@[i as int]);
        }
        let c = token.get_char(i);
        if c == '0' || c == '1' {
            if run_start == i {
                // A digit after a non-digit (or at the start) opens a run.
                proof {
                    assert(spec_split(prefix1) =~= spec_split(prefix).push(seq![c]));
                    assert(token@.subrange(run_start as int, i as int + 1) =~= seq![c]);
                }
            } else {
                // A digit after a digit extends the pending run.
                proof {
                    let pending = token@.subrange(run_start as int, i as int);
                    lemma_split_nonempty(prefix);
                    assert(spec_split(prefix1) =~= spec_split(prefix).update(
                        spec_split(prefix).len() - 1,
                        spec_split(prefix).last().push(c),
                    ));
                    assert(spec_split(prefix) =~= ret.deep_view().push(pending));
                    assert(spec_split(prefix1) =~= ret.deep_view().push(pending.push(c)));
                    assert(token@.subrange(run_start as int, i as int + 1) =~= pending.push(
                        c,
                    ));
                }
            }
        } else {
            if run_start < i {
                let run = String::from_str(token.substring_char(run_start, i));
                let ghost old_ret = ret.deep_view();
                ret.push(run);
                proof {
                    assert(ret.deep_view() =~= old_ret.push(
                        token@.subrange(run_start as int, i as int),
                    ));
                }
            }
            let one = String::from_str(token.substring_char(i, i + 1));
            let ghost old_ret = ret.deep_view();
            ret.push(one);
            proof {
                assert(token@.subrange(i as int, i as int + 1) =~= seq![token@[i as int]]);
                assert(ret.deep_view() =~= old_ret.push(seq![c]));
                assert(spec_split(prefix1) =~= spec_split(prefix).push(seq![c]));
                assert(spec_split(prefix1) =~= ret.deep_view());
            }
            run_start = i + 1;
        }
        i = i + 1;
    }
    if run_start < n {
        let run = String::from_str(token.substring_char(run_start, n));
        let ghost old_ret = ret.deep_view();
        ret.push(run);
        proof {
            assert(ret.deep_view() =~= old_ret.push(
                token@.subrange(run_start as int, n as int),
            ));
        }
    }
    proof {
        assert(token@.take(n as int) =~= token@);
    }
    ret
}

/// Splits every word of `tokens` and concatenates the symbols in order.
pub fn split_strings(tokens: &[String]) -> (r: Vec<String>)
    ensures
        r.deep_view() == spec_split_all(tokens.deep_view()),
{
    let ghost words = tokens.deep_view();
    let n = tokens.len();
    let mut ret: Vec<String> = Vec::new();
    proof {
        assert(words.skip(0) =~= words);
        assert(ret.deep_view() =~= Seq::<Seq<char>>::empty());
        assert(ret.deep_view() + spec_split_all(words) =~= spec_split_all(words));
    }
    let mut i: usize = 0;
    while i < n
        invariant
            0 <= i <= n == tokens@.len(),
            words == tokens.deep_view(),
            spec_split_all(words) == ret.deep_view() + spec_split_all(words.skip(i as int)),
        decreases n - i,
    {
        let mut parts = split_string(tokens[i].as_str());
        let ghost old_ret = ret.deep_view();
        let ghost parts_view = parts.deep_view();
        let m = parts.len();
        let mut j: usize = 0;
        while j < m
            invariant
                0 <= j <= m == parts@.len(),
                parts_view == parts.deep_view(),
                ret.deep_view() == old_ret + parts_view.take(j as int),
            decreases m - j,
        {
            let ghost before = ret.deep_view();
            let s = parts[j].clone();
            proof {
                assert(s@ == parts_view[j as int]);
            }
            ret.push(s);
            proof {
                assert(ret.deep_view() =~= before.push(parts_view[j as int]));
                assert(parts_view.take(j as int + 1) =~= parts_view.take(j as int).push(
                    parts_view[j as int],
                ));
            }
            j = j + 1;
        }
        proof {
            assert(parts_view.take(m as int) =~= parts_view);
            assert(words.skip(i as int)[0] == words[i as int]);
            assert(words.skip(i as int).skip(1) =~= words.skip(i as int + 1));
            assert(spec_split_all(words.skip(i as int)) == spec_split(words[i as int])
                + spec_split_all(words.skip(i as int + 1)));
            assert(ret.deep_view() + spec_split_all(words.skip(i as int + 1)) =~= old_ret
                + (spec_split(words[i as int]) + spec_split_all(words.skip(i as int + 1))));
        }
        i = i + 1;
    }
    proof {
        assert(words.skip(n as int) =~= Seq::<Seq<char>>::empty());
        assert(ret.deep_view() + Seq::<Seq<char>>::empty() =~= ret.deep_view());
    }
    ret
}

} // verus!
