//! The words of a text: maximal runs of alphanumeric characters and
//! underscores, each listed once.

use crate::chars::{char_is_alphanumeric, is_alphanumeric, string_push};
use crate::rope::RopeBridge;
use crate::text_rope::rope_to_string;
use std::collections::HashMap;
use vstd::prelude::*;

verus! {

/// A character that may be part of a word.
pub open spec fn is_word_char(c: char) -> bool {
    is_alphanumeric(c) || c == '_'
}

/// `text[a..b]` is a word: a non-empty run of word characters that cannot
/// be extended on either side.
pub open spec fn is_word_span(text: Seq<char>, a: int, b: int) -> bool {
    &&& 0 <= a < b <= text.len()
    &&& forall|k: int| a <= k < b ==> #[trigger] is_word_char(text[k])
    &&& (a == 0 || !is_word_char(text[a - 1]))
    &&& (b == text.len() || !is_word_char(text[b]))
}

/// The words of `text` that end before position `p`.
pub open spec fn words_before(text: Seq<char>, p: int) -> Set<Seq<char>> {
    Set::new(
        |w: Seq<char>|
            exists|a: int, b: int| #![trigger text.subrange(a, b)]
                is_word_span(text, a, b) && b < p && text.subrange(a, b) == w,
    )
}

/// The distinct words of `text`.
pub open spec fn text_words(text: Seq<char>) -> Set<Seq<char>> {
    Set::new(
        |w: Seq<char>|
            exists|a: int, b: int| #![trigger text.subrange(a, b)]
                is_word_span(text, a, b) && text.subrange(a, b) == w,
    )
}

/// Some string of `words` has the characters `w`.
pub open spec fn listed(words: Seq<String>, w: Seq<char>) -> bool {
    exists|i: int| 0 <= i < words.len() && #[trigger] words[i]@ == w
}

/// The strings of `words` have the characters of the members of `set`,
/// each member once.
pub open spec fn lists_set_once(words: Seq<String>, set: Set<Seq<char>>) -> bool {
    &&& forall|i: int, j: int| 0 <= i < j < words.len() ==> words[i]@ != words[j]@
    &&& forall|w: Seq<char>| #![trigger set.contains(w)] #![trigger listed(words, w)]
        set.contains(w) <==> listed(words, w)
}

/// The word run that starts at `st` and ends at `i` is the only word that
/// ends at `i`.
proof fn lemma_word_ending_at(text: Seq<char>, st: int, i: int, a: int)
    requires
        0 <= st <= i <= text.len(),
        forall|k: int| st <= k < i ==> #[trigger] is_word_char(text[k]),
        st == 0 || !is_word_char(text[st - 1]),
        is_word_span(text, a, i),
    ensures
        a == st,
{
    if a < st {
        assert(is_word_char(text[st - 1]));
    } else if a > st {
        assert(is_word_char(text[a - 1]));
    }
}

/// A hash of the characters `s`, used to find equal words quickly.
pub open spec fn word_hash(s: Seq<char>) -> u64
    decreases s.len(),
{
    if s.len() == 0 {
        0
    } else {
        ((word_hash(s.drop_last()) as int * 31 + (s.last() as u32) as int) % 1_000_000_007) as u64
    }
}

/// `buckets` files each word of `words` under its hash, and holds only
/// indices of `words`.
pub open spec fn indexes_words(words: Seq<String>, buckets: Map<u64, Vec<usize>>) -> bool {
    &&& forall|k: int|
        0 <= k < words.len() ==> buckets.contains_key(word_hash(#[trigger] words[k]@))
            && buckets[word_hash(words[k]@)]@.contains(k as usize)
    &&& forall|h: u64, j: int|
        buckets.contains_key(h) && 0 <= j < buckets[h]@.len() ==> #[trigger] buckets[h]@[j]
            < words.len()
}

/// Adds `cand`, whose hash is `h`, to `words` unless some word already
/// has its characters, keeping `buckets` in step.
fn add_word(words: &mut Vec<String>, buckets: &mut HashMap<u64, Vec<usize>>, cand: String, h: u64)
    requires
        h == word_hash(cand@),
        indexes_words(old(words)@, old(buckets)@),
    ensures
        indexes_words(final(words)@, final(buckets)@),
        (forall|i: int, j: int| 0 <= i < j < old(words)@.len() ==> old(words)@[i]@ != old(words)@[j]@)
            ==> (forall|i: int, j: int| 0 <= i < j < final(words)@.len() ==> final(words)@[i]@ != final(words)@[j]@),
        forall|w: Seq<char>|
            #[trigger] listed(final(words)@, w) <==> (w == cand@ || listed(old(words)@, w)),
{
    broadcast use vstd::std_specs::hash::group_hash_axioms;

    let ghost before = words@;
    let count = words.len();
    assert(before.len() == count);
    let found = match buckets.get(&h) {
        Some(bucket) => {
            let mut j: usize = 0;
            let mut f = false;
            while j < bucket.len() && !f
                invariant
                    indexes_words(words@, buckets@),
                    buckets@.contains_key(h),
                    buckets@[h] == *bucket,
                    j <= bucket@.len(),
                    words@ == before,
                    count == before.len(),
                    f ==> listed(words@, cand@),
                    !f ==> forall|k: int| 0 <= k < j ==> words@[bucket@[k] as int]@ != cand@,
                decreases bucket.len() - j + if f {
                    0int
                } else {
                    1int
                },
            {
                let idx = bucket[j];
                assert(buckets@[h]@[j as int] < words@.len());
                if words[idx] == cand {
                    f = true;
                    assert(words@[idx as int]@ == cand@);
                } else {
                    j += 1;
                }
            }
            if !f {
                assert forall|k: int| 0 <= k < words@.len() implies #[trigger] words@[k]@ != cand@ by {
                    if words@[k]@ == cand@ {
                        assert(k < count);
                        assert(buckets@[h]@.contains(k as usize));
                        let jj = choose|jj: int| 0 <= jj < bucket@.len() && bucket@[jj] == k as usize;
                        assert(words@[bucket@[jj] as int]@ != cand@);
                    }
                }
            }
            f
        },
        None => {
            assert forall|k: int| 0 <= k < words@.len() implies #[trigger] words@[k]@ != cand@ by {
                if words@[k]@ == cand@ {
                    assert(buckets@.contains_key(word_hash(words@[k]@)));
                }
            }
            false
        },
    };
    if found {
        return;
    }
    let n = words.len();
    let ghost pre = buckets@;
    words.push(cand);
    let mut bucket = match buckets.remove(&h) {
        Some(b) => b,
        None => Vec::new(),
    };
    let ghost oldb = bucket@;
    assert(pre.contains_key(h) ==> oldb == pre[h]@);
    assert(!pre.contains_key(h) ==> oldb.len() == 0);
    bucket.push(n);
    buckets.insert(h, bucket);
    assert(buckets@ == pre.insert(h, buckets@[h]));
    assert(buckets@[h]@ == oldb.push(n));
    assert forall|k: int| 0 <= k < words@.len() implies buckets@.contains_key(
        word_hash(#[trigger] words@[k]@),
    ) && buckets@[word_hash(words@[k]@)]@.contains(k as usize) by {
        if k < n {
            assert(words@[k] == before[k]);
            assert(pre.contains_key(word_hash(before[k]@)) && pre[word_hash(before[k]@)]@.contains(
                k as usize,
            ));
            if word_hash(before[k]@) == h {
                let jj = choose|jj: int| 0 <= jj < oldb.len() && oldb[jj] == k as usize;
                assert(buckets@[h]@[jj] == k as usize);
            }
        } else {
            assert(words@[k]@ == cand@);
            assert(buckets@[h]@[oldb.len() as int] == n);
        }
    }
    assert forall|h2: u64, j: int|
        buckets@.contains_key(h2) && 0 <= j < buckets@[h2]@.len() implies #[trigger] buckets@[h2]@[j]
        < words@.len() by {
        if h2 != h {
            assert(buckets@[h2] == pre[h2]);
            assert(pre[h2]@[j] < n);
        } else if j < oldb.len() {
            assert(pre[h]@[j] < n);
        }
    }
    assert forall|i: int, j: int|
        0 <= i < j < words@.len() && (forall|a: int, b: int|
            0 <= a < b < before.len() ==> before[a]@ != before[b]@) implies words@[i]@ != words@[j]@ by {
        assert(words@[i] == before[i]);
        if j < n {
            assert(words@[j] == before[j]);
        } else {
            assert(before[i]@ != cand@);
        }
    }
    assert forall|w: Seq<char>| #[trigger] listed(words@, w) <==> (w == cand@ || listed(before, w)) by {
        if listed(words@, w) {
            let i = choose|i: int| 0 <= i < words@.len() && #[trigger] words@[i]@ == w;
            if i < before.len() {
                assert(before[i] == words@[i]);
            }
        }
        if listed(before, w) {
            let i = choose|i: int| 0 <= i < before.len() && #[trigger] before[i]@ == w;
            assert(words@[i] == before[i]);
        }
        if w == cand@ {
            assert(words@[n as int]@ == cand@);
        }
    }
}

/// The distinct words of the buffer, each once: maximal runs of
/// alphanumeric characters and underscores.  The order is not part of the
/// contract.
pub fn words_extract(rope: &RopeBridge) -> (words: Vec<String>)
    ensures
        lists_set_once(words@, text_words(rope.text())),
{
    let mut words: Vec<String> = Vec::new();
    let mut buckets: HashMap<u64, Vec<usize>> = HashMap::new();
    let mut current_word = String::new();
    let mut h: u64 = 0;
    let text = rope_to_string(rope.rope());
    let ghost t = text@;
    let ghost mut start: int = 0;
    for ch in it: text.chars()
        invariant
            it.seq() == t,
            t == rope.text(),
            0 <= start <= it.index() <= t.len(),
            current_word@ == t.subrange(start, it.index() as int),
            h == word_hash(current_word@),
            h < 1_000_000_007,
            forall|k: int| start <= k < it.index() ==> #[trigger] is_word_char(t[k]),
            start == 0 || !is_word_char(t[start - 1]),
            lists_set_once(words@, words_before(t, it.index() as int)),
            indexes_words(words@, buckets@),
    {
        let ghost i = it.index() as int;
        assert(t[i] == ch);
        if char_is_alphanumeric(ch) || ch == '_' {
            let ghost before_word = current_word@;
            string_push(&mut current_word, ch);
            assert(current_word@.drop_last() == before_word);
            h = (h * 31 + ch as u32 as u64) % 1_000_000_007;
            assert(words_before(t, i + 1) =~= words_before(t, i)) by {
                assert forall|w: Seq<char>| words_before(t, i + 1).contains(w) implies words_before(
                    t,
                    i,
                ).contains(w) by {
                    let (a, b) = choose|a: int, b: int| #![trigger t.subrange(a, b)]
                        is_word_span(t, a, b) && b < i + 1 && t.subrange(a, b) == w;
                    if b == i {
                        assert(is_word_char(t[b]));
                    }
                }
            }
        } else {
            if !current_word.as_str().is_empty() {
                let cand = current_word;
                current_word = String::new();
                add_word(&mut words, &mut buckets, cand, h);
                h = 0;
                assert(is_word_span(t, start, i));
                assert(words_before(t, i + 1) =~= words_before(t, i).insert(t.subrange(start, i)))
                    by {
                    assert forall|w: Seq<char>| words_before(t, i + 1).contains(w) implies words_before(
                        t,
                        i,
                    ).insert(t.subrange(start, i)).contains(w) by {
                        let (a, b) = choose|a: int, b: int| #![trigger t.subrange(a, b)]
                            is_word_span(t, a, b) && b < i + 1 && t.subrange(a, b) == w;
                        if b == i {
                            lemma_word_ending_at(t, start, i, a);
                        }
                    }
                }
            } else {
                assert(words_before(t, i + 1) =~= words_before(t, i)) by {
                    assert forall|w: Seq<char>| words_before(t, i + 1).contains(w) implies words_before(
                        t,
                        i,
                    ).contains(w) by {
                        let (a, b) = choose|a: int, b: int| #![trigger t.subrange(a, b)]
                            is_word_span(t, a, b) && b < i + 1 && t.subrange(a, b) == w;
                        if b == i {
                            lemma_word_ending_at(t, start, i, a);
                        }
                    }
                }
            }
            proof {
                start = i + 1;
            }
        }
    }
    let ghost n = t.len() as int;
    if !current_word.as_str().is_empty() {
        add_word(&mut words, &mut buckets, current_word, h);
        assert(is_word_span(t, start, n));
        assert(text_words(t) =~= words_before(t, n).insert(t.subrange(start, n))) by {
            assert forall|w: Seq<char>| text_words(t).contains(w) implies words_before(t, n).insert(
                t.subrange(start, n),
            ).contains(w) by {
                let (a, b) = choose|a: int, b: int| #![trigger t.subrange(a, b)]
                    is_word_span(t, a, b) && t.subrange(a, b) == w;
                if b == n {
                    lemma_word_ending_at(t, start, n, a);
                }
            }
        }
    } else {
        assert(text_words(t) =~= words_before(t, n)) by {
            assert forall|w: Seq<char>| text_words(t).contains(w) implies words_before(t, n).contains(w) by {
                let (a, b) = choose|a: int, b: int| #![trigger t.subrange(a, b)]
                    is_word_span(t, a, b) && t.subrange(a, b) == w;
                if b == n {
                    lemma_word_ending_at(t, start, n, a);
                }
            }
        }
    }
    words
}

} // verus!
