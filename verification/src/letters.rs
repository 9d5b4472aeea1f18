use vstd::prelude::*;

verus! {

// ---------------------------------------------------------------------------
// Splitting the raw grid string on commas
// ---------------------------------------------------------------------------

/// The groups a character sequence falls into when split on commas:
/// the empty sequence gives one empty group, and every comma closes the
/// current group and opens a new one.
pub open spec fn split_commas(s: Seq<char>) -> Seq<Seq<char>>
    decreases s.len(),
{
    if s.len() == 0 {
        seq![Seq::<char>::empty()]
    } else if s.last() == ',' {
        split_commas(s.drop_last()).push(Seq::<char>::empty())
    } else {
        let r = split_commas(s.drop_last());
        r.update(r.len() - 1, r.last().push(s.last()))
    }
}

/// How many commas a character sequence holds.
pub open spec fn comma_count(s: Seq<char>) -> int
    decreases s.len(),
{
    if s.len() == 0 {
        0
    } else {
        comma_count(s.drop_last()) + if s.last() == ',' {
            1int
        } else {
            0int
        }
    }
}

/// Splitting on commas yields one group more than there are commas.
pub proof fn lemma_split_commas_len(s: Seq<char>)
    ensures
        comma_count(s) >= 0,
        split_commas(s).len() == comma_count(s) + 1,
    decreases s.len(),
{
    if s.len() > 0 {
        lemma_split_commas_len(s.drop_last());
        if s.last() == ',' {
            assert(split_commas(s) == split_commas(s.drop_last()).push(Seq::<char>::empty()));
        } else {
            let r = split_commas(s.drop_last());
            assert(split_commas(s) == r.update(r.len() - 1, r.last().push(s.last())));
        }
    }
}

// ---------------------------------------------------------------------------
// Letters of words and of chains of words
// ---------------------------------------------------------------------------

/// All the given character sequences, laid end to end.
pub open spec fn concat_all(s: Seq<Seq<char>>) -> Seq<char>
    decreases s.len(),
{
    if s.len() == 0 {
        Seq::<char>::empty()
    } else {
        concat_all(s.drop_last()) + s.last()
    }
}

/// The set of letters that occur in any of the given words.
pub open spec fn letter_set(s: Seq<Seq<char>>) -> Set<char> {
    concat_all(s).to_set()
}

/// The first-occurrence deduplication of a character sequence.
pub open spec fn dedup(s: Seq<char>) -> Seq<char>
    decreases s.len(),
{
    if s.len() == 0 {
        Seq::<char>::empty()
    } else {
        let r = dedup(s.drop_last());
        if r.contains(s.last()) {
            r
        } else {
            r.push(s.last())
        }
    }
}

pub proof fn lemma_seq_add_contains(a: Seq<char>, b: Seq<char>, x: char)
    ensures
        (a + b).contains(x) <==> a.contains(x) || b.contains(x),
{
    if (a + b).contains(x) {
        let i = choose|i: int| 0 <= i < (a + b).len() && (a + b)[i] == x;
        if i < a.len() {
            assert(a[i] == x);
        } else {
            assert(b[i - a.len()] == x);
        }
    }
    if a.contains(x) {
        let i = choose|i: int| 0 <= i < a.len() && a[i] == x;
        assert((a + b)[i] == x);
    }
    if b.contains(x) {
        let i = choose|i: int| 0 <= i < b.len() && b[i] == x;
        assert((a + b)[a.len() + i] == x);
    }
}

pub proof fn lemma_seq_to_set_add(a: Seq<char>, b: Seq<char>)
    ensures
        (a + b).to_set() == a.to_set().union(b.to_set()),
{
    assert forall|x: char| #[trigger] (a + b).to_set().contains(x)
        <==> a.to_set().union(b.to_set()).contains(x) by {
        lemma_seq_add_contains(a, b, x);
    }
    assert((a + b).to_set() =~= a.to_set().union(b.to_set()));
}

pub proof fn lemma_concat_all_push(s: Seq<Seq<char>>, w: Seq<char>)
    ensures
        concat_all(s.push(w)) == concat_all(s) + w,
{
    assert(s.push(w).drop_last() =~= s);
    assert(s.push(w).last() == w);
}

pub proof fn lemma_letter_set_push(s: Seq<Seq<char>>, w: Seq<char>)
    ensures
        letter_set(s.push(w)) == letter_set(s).union(w.to_set()),
{
    lemma_concat_all_push(s, w);
    lemma_seq_to_set_add(concat_all(s), w);
}

/// A letter occurs in a chain's letter set exactly when one of the words
/// holds it.
pub proof fn lemma_letter_set_membership(s: Seq<Seq<char>>, x: char)
    ensures
        letter_set(s).contains(x) <==> exists|j: int|
            0 <= j < s.len() && (#[trigger] s[j]).contains(x),
    decreases s.len(),
{
    if s.len() == 0 {
        assert(!concat_all(s).contains(x));
    } else {
        let d = s.drop_last();
        lemma_letter_set_membership(d, x);
        lemma_seq_add_contains(concat_all(d), s.last(), x);
        if letter_set(s).contains(x) {
            if concat_all(d).contains(x) {
                let j = choose|j: int| 0 <= j < d.len() && (#[trigger] d[j]).contains(x);
                assert(s[j].contains(x));
            } else {
                assert(s[s.len() - 1].contains(x));
            }
        }
        if exists|j: int| 0 <= j < s.len() && (#[trigger] s[j]).contains(x) {
            let j = choose|j: int| 0 <= j < s.len() && (#[trigger] s[j]).contains(x);
            if j < s.len() - 1 {
                assert(d[j].contains(x));
                assert(letter_set(d).contains(x));
            } else {
                assert(s.last().contains(x));
            }
        }
    }
}

pub proof fn lemma_no_dup_push<A>(s: Seq<A>, x: A)
    requires
        s.no_duplicates(),
        !s.contains(x),
    ensures
        s.push(x).no_duplicates(),
{
    let p = s.push(x);
    assert forall|i: int, j: int|
        0 <= i < p.len() && 0 <= j < p.len() && i != j implies p[i] != p[j] by {
        if i < s.len() && j < s.len() {
            assert(s[i] != s[j]);
        } else if i < s.len() && j == s.len() {
            assert(s[i] != x);
        } else if j < s.len() && i == s.len() {
            assert(s[j] != x);
        }
    }
}

pub proof fn lemma_no_dup_take_excludes<A>(s: Seq<A>, k: int)
    requires
        s.no_duplicates(),
        0 <= k < s.len(),
    ensures
        !s.take(k).contains(s[k]),
{
    if s.take(k).contains(s[k]) {
        let i = choose|i: int| 0 <= i < k && s.take(k)[i] == s[k];
        assert(s[i] == s[k]);
        assert(false);
    }
}

pub proof fn lemma_dedup_props(s: Seq<char>)
    ensures
        dedup(s).no_duplicates(),
        dedup(s).to_set() == s.to_set(),
    decreases s.len(),
{
    if s.len() == 0 {
        assert(dedup(s).to_set() =~= s.to_set());
    } else {
        let d = s.drop_last();
        lemma_dedup_props(d);
        let r = dedup(d);
        d.lemma_push_to_set_commute(s.last());
        assert(d.push(s.last()) =~= s);
        if r.contains(s.last()) {
            assert(r.to_set().contains(s.last()));
            assert(dedup(s).to_set() =~= s.to_set());
        } else {
            lemma_no_dup_push(r, s.last());
            r.lemma_push_to_set_commute(s.last());
            assert(dedup(s).to_set() =~= s.to_set());
        }
    }
}

/// Deduplicating a sequence without repeated elements leaves it unchanged.
pub proof fn lemma_dedup_of_no_dup(s: Seq<char>)
    requires
        s.no_duplicates(),
    ensures
        dedup(s) == s,
    decreases s.len(),
{
    if s.len() == 0 {
        assert(dedup(s) =~= s);
    } else {
        let d = s.drop_last();
        assert(d.no_duplicates());
        lemma_dedup_of_no_dup(d);
        assert(!d.contains(s.last())) by {
            if d.contains(s.last()) {
                let i = choose|i: int| 0 <= i < d.len() && d[i] == s.last();
                assert(s[i] == s[s.len() - 1]);
                assert(false);
            }
        }
        assert(dedup(s) =~= s);
    }
}

/// Deduplicating the left operand first does not change a deduplication.
pub proof fn lemma_dedup_add_dedup(a: Seq<char>, b: Seq<char>)
    ensures
        dedup(dedup(a) + b) == dedup(a + b),
    decreases b.len(),
{
    if b.len() == 0 {
        assert(dedup(a) + b =~= dedup(a));
        assert(a + b =~= a);
        lemma_dedup_props(a);
        lemma_dedup_of_no_dup(dedup(a));
    } else {
        lemma_dedup_add_dedup(a, b.drop_last());
        let x = b.last();
        let y1 = dedup(a) + b;
        let y2 = a + b;
        assert((dedup(a) + b.drop_last()).push(x) =~= y1);
        assert((a + b.drop_last()).push(x) =~= y2);
        assert(y1.drop_last() == dedup(a) + b.drop_last());
        assert(y2.drop_last() == a + b.drop_last());
        assert(y1.last() == x);
        assert(y2.last() == x);
        assert(dedup(y1) == dedup(y2));
    }
}

/// The index of a word of a nested vector's deep view is that word's view.
pub proof fn lemma_deep_index_chars(v: Vec<Vec<char>>, j: int)
    requires
        0 <= j < v@.len(),
    ensures
        v.deep_view()[j] == v@[j]@,
{
    assert(v.deep_view()[j] =~= v@[j]@);
}

/// The index of a word of a string vector's deep view is that word's view.
pub proof fn lemma_deep_index_strings(v: Vec<String>, j: int)
    requires
        0 <= j < v@.len(),
    ensures
        v.deep_view()[j] == v@[j]@,
{
    assert(v.deep_view()[j] =~= v@[j]@);
}

/// The letter set of a one-word chain is that word's letters.
pub proof fn lemma_letter_set_singleton(w: Seq<char>)
    ensures
        letter_set(seq![w]) == w.to_set(),
{
    let s = seq![w];
    assert(s.drop_last() =~= Seq::<Seq<char>>::empty());
    assert(concat_all(s.drop_last()) =~= Seq::<char>::empty());
    assert(concat_all(s) == concat_all(s.drop_last()) + s.last());
    assert(Seq::<char>::empty() + w =~= w);
}

/// A subset with the same finite cardinality is the whole set.
pub proof fn lemma_subset_same_card_eq<A>(s1: Set<A>, s2: Set<A>)
    requires
        s1.subset_of(s2),
        s2.finite(),
        s1.len() == s2.len(),
    ensures
        s1 == s2,
{
    vstd::set_lib::lemma_set_subset_finite(s2, s1);
    if s1 != s2 {
        assert(exists|x: A| s2.contains(x) && !s1.contains(x)) by {
            if forall|x: A| #[trigger] s2.contains(x) ==> s1.contains(x) {
                assert(s1 =~= s2);
            }
        }
        let x = choose|x: A| s2.contains(x) && !s1.contains(x);
        s1.lemma_subset_not_in_lt(s2, x);
        assert(false);
    }
}

// ---------------------------------------------------------------------------
// Executable helpers on characters and strings
// ---------------------------------------------------------------------------

/// Whether the vector holds the given character.
pub fn contains_char(v: &Vec<char>, c: char) -> (b: bool)
    ensures
        b == v@.contains(c),
{
    let mut i: usize = 0;
    while i < v.len()
        invariant
            i <= v@.len(),
            forall|k: int| 0 <= k < i ==> v@[k] != c,
        decreases v@.len() - i,
    {
        if v[i] == c {
            assert(v@[i as int] == c);
            return true;
        }
        i += 1;
    }
    false
}

/// The characters of a string slice, in order.
pub fn str_chars(w: &str) -> (r: Vec<char>)
    ensures
        r@ == w@,
{
    let n = w.unicode_len();
    let mut r: Vec<char> = Vec::new();
    let mut i: usize = 0;
    while i < n
        invariant
            n == w@.len(),
            i <= n,
            r@ == w@.take(i as int),
        decreases n - i,
    {
        let c = w.get_char(i);
        r.push(c);
        assert(r@ =~= w@.take(i as int + 1));
        i += 1;
    }
    assert(w@.take(n as int) =~= w@);
    r
}

/// Appends to `acc` the characters of `w` that it does not hold yet, so
/// that `acc` stays free of repeats and keeps first occurrences in order.
pub fn add_letters(acc: &mut Vec<char>, w: &Vec<char>)
    requires
        old(acc)@.no_duplicates(),
    ensures
        final(acc)@ == dedup(old(acc)@ + w@),
        final(acc)@.no_duplicates(),
        final(acc)@.to_set() == old(acc)@.to_set().union(w@.to_set()),
{
    proof {
        lemma_dedup_of_no_dup(old(acc)@);
        assert(old(acc)@ + w@.take(0) =~= old(acc)@);
    }
    let mut i: usize = 0;
    while i < w.len()
        invariant
            i <= w@.len(),
            acc@ == dedup(old(acc)@ + w@.take(i as int)),
        decreases w@.len() - i,
    {
        let ghost z = old(acc)@ + w@.take(i as int);
        let ghost y = old(acc)@ + w@.take(i as int + 1);
        proof {
            assert(z.push(w@[i as int]) =~= y);
            assert(y.drop_last() == z);
            assert(y.last() == w@[i as int]);
        }
        let c = w[i];
        if !contains_char(acc, c) {
            acc.push(c);
        }
        proof {
            assert(acc@ == dedup(y));
        }
        i += 1;
    }
    proof {
        assert(old(acc)@ + w@.take(w@.len() as int) =~= old(acc)@ + w@);
        lemma_dedup_props(old(acc)@ + w@);
        lemma_seq_to_set_add(old(acc)@, w@);
    }
}

} // verus!
