use vstd::prelude::*;
use crate::symbol_map::{
    has_key, is_listing, key_index, lemma_listing, lemma_lower_bound, lemma_map_of_entries,
    lemma_map_of_keys, lemma_put, listing, lower_bound, map_of, put, SymbolMap,
};

verus! {

/// How often `c` stands in `text`.
pub open spec fn occurrences(text: Seq<char>, c: char) -> nat
    decreases text.len(),
{
    if text.len() == 0 {
        0
    } else {
        occurrences(text.drop_last(), c) + if text.last() == c {
            1nat
        } else {
            0nat
        }
    }
}

/// The frequency table of a text: each symbol that occurs, with the number of
/// times it does.
pub open spec fn frequency_map(text: Seq<char>) -> Map<char, usize> {
    Map::new(|c: char| occurrences(text, c) > 0, |c: char| occurrences(text, c) as usize)
}

/// The sum of the counts of a sequence of entries.
pub open spec fn sum_counts(s: Seq<(char, usize)>) -> nat
    decreases s.len(),
{
    if s.len() == 0 {
        0
    } else {
        sum_counts(s.drop_last()) + s.last().1 as nat
    }
}

/// The sum of all counts of a frequency table.
pub open spec fn table_total(table: Map<char, usize>) -> nat {
    sum_counts(listing(table))
}

/// No symbol occurs more often than the text is long.
pub proof fn lemma_occurrences_bound(text: Seq<char>, c: char)
    ensures
        occurrences(text, c) <= text.len(),
    decreases text.len(),
{
    if text.len() > 0 {
        lemma_occurrences_bound(text.drop_last(), c);
    }
}

/// An entry put in anywhere adds its count to the sum.
pub proof fn lemma_sum_insert(s: Seq<(char, usize)>, p: int, entry: (char, usize))
    requires
        0 <= p <= s.len(),
    ensures
        sum_counts(s.insert(p, entry)) == sum_counts(s) + entry.1,
    decreases s.len() - p,
{
    let t = s.insert(p, entry);
    if p == s.len() {
        assert(t.drop_last() =~= s);
    } else {
        assert(t.drop_last() =~= s.drop_last().insert(p, entry));
        assert(t.last() == s.last());
        lemma_sum_insert(s.drop_last(), p, entry);
    }
}

/// An entry put in the place of another changes the sum by the difference of
/// their counts.
pub proof fn lemma_sum_update(s: Seq<(char, usize)>, p: int, entry: (char, usize))
    requires
        0 <= p < s.len(),
    ensures
        sum_counts(s.update(p, entry)) + s[p].1 == sum_counts(s) + entry.1,
    decreases s.len() - p,
{
    let t = s.update(p, entry);
    if p == s.len() - 1 {
        assert(t.drop_last() =~= s.drop_last());
    } else {
        assert(t.drop_last() =~= s.drop_last().update(p, entry));
        assert(t.last() == s.last());
        lemma_sum_update(s.drop_last(), p, entry);
    }
}

/// The sorted entries of the frequency table of `text`, built symbol by
/// symbol.
spec fn counted(text: Seq<char>) -> Seq<(char, usize)>
    decreases text.len(),
{
    if text.len() == 0 {
        Seq::empty()
    } else {
        put(counted(text.drop_last()), text.last(), occurrences(text, text.last()) as usize)
    }
}

proof fn lemma_counted(text: Seq<char>)
    requires
        text.len() <= usize::MAX,
    ensures
        is_listing(counted(text), frequency_map(text)),
        sum_counts(counted(text)) == text.len(),
    decreases text.len(),
{
    if text.len() == 0 {
        assert(map_of(counted(text)) =~= frequency_map(text));
    } else {
        let front = text.drop_last();
        let c = text.last();
        let s = counted(front);
        let v = occurrences(text, c) as usize;
        lemma_counted(front);
        lemma_occurrences_bound(text, c);
        lemma_occurrences_bound(front, c);
        lemma_put(s, c, v);
        assert(frequency_map(front).insert(c, v) =~= frequency_map(text)) by {
            assert forall|k: char| k != c implies occurrences(text, k) == occurrences(front, k) by {}
        }
        let p = lower_bound(s, c);
        lemma_lower_bound(s, c);
        lemma_map_of_keys(s, c);
        lemma_map_of_entries(s);
        if p < s.len() && s[p].0 == c {
            assert(key_index(s, c, p));
            lemma_sum_update(s, p, (c, v));
            assert(s[p].1 == occurrences(front, c) as usize);
        } else {
            assert(!has_key(s, c)) by {
                if has_key(s, c) {
                    let i = choose|i: int| key_index(s, c, i);
                    if i > p {
                        assert(s[p].0 < s[i].0);
                    }
                }
            }
            lemma_sum_insert(s, p, (c, v));
            assert(occurrences(front, c) == 0);
        }
    }
}

/// Frequency conservation: the counts of the frequency table of a text add up
/// to the number of symbols of the text.
pub proof fn lemma_frequency_conservation(text: Seq<char>)
    requires
        text.len() <= usize::MAX,
    ensures
        frequency_map(text).dom().finite(),
        is_listing(listing(frequency_map(text)), frequency_map(text)),
        table_total(frequency_map(text)) == text.len(),
{
    lemma_counted(text);
    lemma_listing(frequency_map(text), counted(text));
    lemma_map_of_entries(counted(text));
}

/// Counts how often each symbol occurs in a text. A symbol is one character,
/// whatever the number of bytes that it takes.
pub fn frequencies(chs: &str) -> (table: SymbolMap<usize>)
    ensures
        table@ == frequency_map(chs@),
        table_total(table@) == chs@.len(),
        table_total(table@) <= usize::MAX,
{
    let ghost text = chs@;
    // No count exceeds the length of the text, which fits a machine word.
    let length = chs.unicode_len();
    let mut table: SymbolMap<usize> = SymbolMap::new();
    assert(table@ =~= frequency_map(text.take(0)));
    for ch in it: chs.chars()
        invariant
            it.seq() == text,
            text.len() == length,
            table@ == frequency_map(text.take(it.index())),
    {
        let ghost seen = text.take(it.index());
        let ghost next = text.take(it.index() + 1);
        proof {
            assert(next.drop_last() == seen);
            assert(next.last() == ch);
            lemma_occurrences_bound(seen, ch);
        }
        let count: usize = match table.get(&ch) {
            Some(n) => *n,
            None => 0,
        };
        table.insert(ch, count + 1);
        proof {
            assert(table@ =~= frequency_map(next)) by {
                assert forall|k: char| k != ch implies occurrences(next, k) == occurrences(
                    seen,
                    k,
                ) by {}
            }
        }
    }
    proof {
        assert(text.take(text.len() as int) == text);
        lemma_frequency_conservation(text);
    }
    table
}

/// Every symbol of a text occurs in it.
pub proof fn lemma_occurs(text: Seq<char>, i: int)
    requires
        0 <= i < text.len(),
    ensures
        occurrences(text, text[i]) > 0,
        frequency_map(text).contains_key(text[i]),
    decreases text.len(),
{
    if i < text.len() - 1 {
        lemma_occurs(text.drop_last(), i);
    }
}

/// The counts of the first entries add up to no more than those of all.
pub proof fn lemma_sum_take(s: Seq<(char, usize)>, n: int)
    requires
        0 <= n <= s.len(),
    ensures
        sum_counts(s.take(n)) <= sum_counts(s),
    decreases s.len(),
{
    if n < s.len() {
        assert(s.drop_last().take(n) =~= s.take(n));
        lemma_sum_take(s.drop_last(), n);
    } else {
        assert(s.take(n) =~= s);
    }
}

/// The sum of all counts of a table, unless it does not fit the machine's
/// word.
pub fn checked_total(table: &SymbolMap<usize>) -> (total: Option<usize>)
    ensures
        match total {
            Some(t) => t == table_total(table@),
            None => table_total(table@) > usize::MAX,
        },
{
    let ghost entries = listing(table@);
    let n = table.len();
    let mut sum: usize = 0;
    let mut i: usize = 0;
    while i < n
        invariant
            i <= n,
            n == table@.len(),
            n == entries.len(),
            entries == listing(table@),
            sum == sum_counts(entries.take(i as int)),
        decreases n - i,
    {
        proof {
            assert(entries.take(i + 1).drop_last() == entries.take(i as int));
            assert(entries.take(i + 1).last() == entries[i as int]);
            lemma_sum_take(entries, i + 1);
        }
        match sum.checked_add(*table.value_at(i)) {
            Some(next) => {
                sum = next;
            },
            None => {
                return None;
            },
        }
        i = i + 1;
    }
    assert(entries.take(n as int) == entries);
    Some(sum)
}

} // verus!
