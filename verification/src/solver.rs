use vstd::prelude::*;

use crate::grid::Grid;
use crate::letters::{
    add_letters, lemma_deep_index_strings, lemma_letter_set_membership,
    lemma_letter_set_push, lemma_letter_set_singleton, lemma_no_dup_push,
    lemma_no_dup_take_excludes, lemma_subset_same_card_eq, letter_set, str_chars,
};

verus! {

/// One explored chain of words: the words chosen so far and the distinct
/// letters they use.
struct SearchState {
    used: Vec<char>,
    path: Vec<String>,
}

/// Consecutive words of a chain link head to tail: each word starts with
/// the letter the previous word ends with.
pub open spec fn is_chained(c: Seq<Seq<char>>) -> bool {
    forall|i: int| 1 <= i < c.len() ==> (#[trigger] c[i]).first() == c[i - 1].last()
}

/// A chain drawn from `words`: every entry is one of `words`, no word
/// repeats, and consecutive words link head to tail.
pub open spec fn chain_from(words: Seq<Seq<char>>, c: Seq<Seq<char>>) -> bool {
    &&& forall|i: int| 0 <= i < c.len() ==> words.contains(#[trigger] c[i])
    &&& c.no_duplicates()
    &&& is_chained(c)
}

/// A solution over `words`: a nonempty chain of at most `max` of those
/// words whose letters together are exactly `all`.
pub open spec fn is_solution_over(
    words: Seq<Seq<char>>,
    all: Set<char>,
    max: int,
    c: Seq<Seq<char>>,
) -> bool {
    &&& chain_from(words, c)
    &&& 1 <= c.len() <= max
    &&& letter_set(c) == all
}

/// The invariant of one search state at a given depth: its chain is a
/// depth-long chain from `words`, and `used` lists the chain's distinct
/// letters.
spec fn st_inv(g: Grid, words: Seq<Seq<char>>, st: SearchState, depth: int) -> bool {
    &&& st.path@.len() == depth
    &&& chain_from(words, st.path.deep_view())
    &&& st.used@.no_duplicates()
    &&& st.used@.to_set() == letter_set(st.path.deep_view())
}

/// The letters of a word that is legal for `g` all lie on the grid.
proof fn lemma_legal_word_letters(g: Grid, w: Seq<char>)
    requires
        g.wf(),
        g.spec_valid_word(w),
    ensures
        w.to_set().subset_of(g.all_letters@.to_set()),
{
    assert forall|x: char| w.to_set().contains(x) implies g.all_letters@.to_set().contains(
        x,
    ) by {
        let i = choose|i: int| 0 <= i < w.len() && w[i] == x;
        assert(g.spec_side_of(w[i]) is Some);
        match g.spec_side_of(x) {
            Some(k) => {
                crate::grid::lemma_first_side_found(g.sides.deep_view(), x, 0, k);
                lemma_letter_set_membership(g.sides.deep_view(), x);
            },
            None => {
                assert(false);
            },
        }
    }
}

/// A state's `used` count matches the grid's distinct-letter count
/// exactly when the state's chain covers the grid's letters.
proof fn lemma_cover_iff_len(g: Grid, words: Seq<Seq<char>>, st: SearchState, depth: int)
    requires
        g.wf(),
        forall|i: int| 0 <= i < words.len() ==> g.spec_valid_word(#[trigger] words[i]),
        st_inv(g, words, st, depth),
    ensures
        (st.used@.len() == g.all_letters@.len()) <==> (letter_set(st.path.deep_view())
            == g.all_letters@.to_set()),
{
    broadcast use vstd::seq_lib::seq_to_set_is_finite;

    let pd = st.path.deep_view();
    assert forall|x: char| letter_set(pd).contains(x) implies g.all_letters@.to_set().contains(
        x,
    ) by {
        lemma_letter_set_membership(pd, x);
        let j = choose|j: int| 0 <= j < pd.len() && (#[trigger] pd[j]).contains(x);
        assert(words.contains(pd[j]));
        let i = choose|i: int| 0 <= i < words.len() && words[i] == pd[j];
        assert(g.spec_valid_word(words[i]));
        lemma_legal_word_letters(g, pd[j]);
        assert(pd[j].to_set().contains(x));
    }
    st.used@.unique_seq_to_set();
    g.all_letters@.unique_seq_to_set();
    if st.used@.len() == g.all_letters@.len() {
        lemma_subset_same_card_eq(letter_set(pd), g.all_letters@.to_set());
    }
}

/// Whether some word of `path` reads the same as `w`.
fn contains_word(path: &Vec<String>, w: &String) -> (b: bool)
    ensures
        b == path.deep_view().contains(w@),
{
    let mut i: usize = 0;
    while i < path.len()
        invariant
            i <= path@.len(),
            forall|k: int| 0 <= k < i ==> path.deep_view()[k] != w@,
        decreases path@.len() - i,
    {
        proof {
            lemma_deep_index_strings(*path, i as int);
        }
        if path[i] == *w {
            assert(path.deep_view()[i as int] == w@);
            return true;
        }
        i += 1;
    }
    assert forall|k: int| 0 <= k < path.deep_view().len() implies path.deep_view()[k] != w@ by {}
    false
}

/// A copy of a character vector.
fn clone_chars(v: &Vec<char>) -> (r: Vec<char>)
    ensures
        r@ == v@,
{
    let mut r: Vec<char> = Vec::new();
    let mut i: usize = 0;
    while i < v.len()
        invariant
            i <= v@.len(),
            r@ == v@.take(i as int),
        decreases v@.len() - i,
    {
        r.push(v[i]);
        assert(r@ =~= v@.take(i as int + 1));
        i += 1;
    }
    assert(v@.take(v@.len() as int) =~= v@);
    r
}

/// A copy of a word vector.
fn clone_words(v: &Vec<String>) -> (r: Vec<String>)
    ensures
        r@ == v@,
        r.deep_view() == v.deep_view(),
{
    let mut r: Vec<String> = Vec::new();
    let mut i: usize = 0;
    while i < v.len()
        invariant
            i <= v@.len(),
            r@ == v@.take(i as int),
        decreases v@.len() - i,
    {
        r.push(v[i].clone());
        assert(r@ =~= v@.take(i as int + 1));
        i += 1;
    }
    assert(v@.take(v@.len() as int) =~= v@);
    assert(r.deep_view() =~~= v.deep_view());
    r
}

impl Grid {
    /// A solution for this puzzle: a chain of distinct legal dictionary
    /// words, at most `max_guesses` long, linking head to tail and
    /// covering the grid's twelve letters exactly.
    pub open spec fn spec_is_solution(self, c: Seq<Seq<char>>) -> bool {
        is_solution_over(
            self.spec_legal_words(),
            self.all_letters@.to_set(),
            self.max_guesses as int,
            c,
        )
    }

    /// Recomputes the letters a proposed chain uses and compares them
    /// with the grid's letter set, independently of the search's own
    /// bookkeeping.
    pub fn is_solution_valid(&self, solution: &Vec<String>) -> (b: bool)
        requires
            self.wf(),
        ensures
            b == (letter_set(solution.deep_view()) == self.all_letters@.to_set()),
    {
        broadcast use vstd::seq_lib::seq_to_set_is_finite;

        let ghost sd = solution.deep_view();
        let mut used: Vec<char> = Vec::new();
        proof {
            assert(sd.take(0) =~= Seq::<Seq<char>>::empty());
            assert(used@.to_set() =~= letter_set(sd.take(0)));
        }
        let mut i: usize = 0;
        while i < solution.len()
            invariant
                i <= solution@.len(),
                sd == solution.deep_view(),
                used@.no_duplicates(),
                used@.to_set() == letter_set(sd.take(i as int)),
            decreases solution@.len() - i,
        {
            proof {
                lemma_deep_index_strings(*solution, i as int);
                assert(sd.take(i as int).push(sd[i as int]) =~= sd.take(i as int + 1));
                lemma_letter_set_push(sd.take(i as int), sd[i as int]);
            }
            let wchars = str_chars(solution[i].as_str());
            add_letters(&mut used, &wchars);
            i += 1;
        }
        proof {
            assert(sd.take(solution@.len() as int) =~= sd);
            assert(used@.to_set() == letter_set(sd));
        }
        if used.len() != self.all_letters.len() {
            proof {
                used@.unique_seq_to_set();
                self.all_letters@.unique_seq_to_set();
                assert(used@.len() == letter_set(sd).len());
                assert(self.all_letters@.len() == self.all_letters@.to_set().len());
                assert(letter_set(sd) != self.all_letters@.to_set());
            }
            return false;
        }
        let mut k: usize = 0;
        while k < used.len()
            invariant
                self.wf(),
                k <= used@.len(),
                sd == solution.deep_view(),
                used@.to_set() == letter_set(sd),
                used@.no_duplicates(),
                forall|k2: int| 0 <= k2 < k ==> self.all_letters@.contains(#[trigger] used@[k2]),
            decreases used@.len() - k,
        {
            if !crate::letters::contains_char(&self.all_letters, used[k]) {
                proof {
                    assert(used@.to_set().contains(used@[k as int]));
                    assert(!self.all_letters@.to_set().contains(used@[k as int]));
                }
                return false;
            }
            k += 1;
        }
        proof {
            assert forall|x: char| letter_set(sd).contains(x)
                implies self.all_letters@.to_set().contains(x) by {
                let k2 = choose|k2: int| 0 <= k2 < used@.len() && used@[k2] == x;
                assert(self.all_letters@.contains(used@[k2]));
            }
            used@.unique_seq_to_set();
            self.all_letters@.unique_seq_to_set();
            lemma_subset_same_card_eq(letter_set(sd), self.all_letters@.to_set());
        }
        true
    }

    /// Breadth-first search over chains of the given legal words, level
    /// by level in chain length. The result is a shortest solution over
    /// `valid_words`, and `None` comes back exactly when no chain of at
    /// most `max_guesses` of those words covers the grid's letters. Ties
    /// between equally short solutions go to the chain generated first
    /// from the given word order, so the outcome is a function of the
    /// inputs alone.
    pub fn solve_bfs(&self, valid_words: &Vec<String>) -> (r: Option<Vec<String>>)
        requires
            self.wf(),
            forall|i: int|
                0 <= i < valid_words.deep_view().len() ==> self.spec_valid_word(
                    #[trigger] valid_words.deep_view()[i],
                ),
        ensures
            match r {
                Some(sol) => is_solution_over(
                    valid_words.deep_view(),
                    self.all_letters@.to_set(),
                    self.max_guesses as int,
                    sol.deep_view(),
                ) && forall|c: Seq<Seq<char>>|
                    #[trigger] is_solution_over(
                        valid_words.deep_view(),
                        self.all_letters@.to_set(),
                        self.max_guesses as int,
                        c,
                    ) ==> c.len() >= sol.deep_view().len(),
                None => forall|c: Seq<Seq<char>>|
                    !(#[trigger] is_solution_over(
                        valid_words.deep_view(),
                        self.all_letters@.to_set(),
                        self.max_guesses as int,
                        c,
                    )),
            },
    {
        let ghost words = valid_words.deep_view();
        let ghost all = self.all_letters@.to_set();
        let ghost maxg = self.max_guesses as int;

        if self.max_guesses == 0 {
            proof {
                assert forall|c: Seq<Seq<char>>|
                    !(#[trigger] is_solution_over(words, all, maxg, c)) by {}
            }
            return None;
        }
        // every one-word chain, in the given word order
        let mut frontier: Vec<SearchState> = Vec::new();
        let mut i: usize = 0;
        while i < valid_words.len()
            invariant
                self.wf(),
                self.max_guesses >= 1,
                words == valid_words.deep_view(),
                forall|i2: int|
                    0 <= i2 < words.len() ==> self.spec_valid_word(#[trigger] words[i2]),
                i <= words.len(),
                forall|m: int|
                    0 <= m < frontier@.len() ==> st_inv(*self, words, #[trigger] frontier@[m], 1),
                forall|j: int| #![trigger words[j]]
                    0 <= j < i ==> exists|m: int|
                        0 <= m < frontier@.len() && (#[trigger] frontier@[m]).path.deep_view()
                            == seq![words[j]],
            decreases words.len() - i,
        {
            proof {
                lemma_deep_index_strings(*valid_words, i as int);
            }
            let w = &valid_words[i];
            let wchars = str_chars(w.as_str());
            let mut used: Vec<char> = Vec::new();
            add_letters(&mut used, &wchars);
            let mut path: Vec<String> = Vec::new();
            path.push(w.clone());
            let st = SearchState { used, path };
            proof {
                assert(st.path.deep_view() =~~= seq![words[i as int]]);
                assert(words.contains(words[i as int]));
                assert(st.path.deep_view().no_duplicates());
                assert(Seq::<char>::empty().to_set().union(wchars@.to_set()) =~= wchars@.to_set());
                lemma_letter_set_singleton(words[i as int]);
                assert(st_inv(*self, words, st, 1));
            }
            let ghost prev = frontier@;
            frontier.push(st);
            proof {
                assert forall|j: int| #![trigger words[j]]
                    0 <= j < i + 1 implies exists|m: int|
                    0 <= m < frontier@.len() && (#[trigger] frontier@[m]).path.deep_view()
                        == seq![words[j]] by {
                    if j < i {
                        let m = choose|m: int|
                            0 <= m < prev.len() && (#[trigger] prev[m]).path.deep_view()
                                == seq![words[j]];
                        assert(frontier@[m].path.deep_view() == seq![words[j]]);
                    } else {
                        assert(frontier@[prev.len() as int].path.deep_view() == seq![words[j]]);
                    }
                }
            }
            i += 1;
        }
        let mut depth: usize = 1;
        loop
            invariant
                self.wf(),
                words == valid_words.deep_view(),
                all == self.all_letters@.to_set(),
                maxg == self.max_guesses as int,
                forall|i2: int|
                    0 <= i2 < words.len() ==> self.spec_valid_word(#[trigger] words[i2]),
                1 <= depth <= self.max_guesses,
                forall|m: int|
                    0 <= m < frontier@.len() ==> st_inv(
                        *self,
                        words,
                        #[trigger] frontier@[m],
                        depth as int,
                    ),
                forall|c: Seq<Seq<char>>|
                    #[trigger] is_solution_over(words, all, maxg, c) ==> c.len() >= depth as int,
                forall|c: Seq<Seq<char>>|
                    #[trigger] is_solution_over(words, all, maxg, c) ==> exists|m: int|
                        0 <= m < frontier@.len() && (#[trigger] frontier@[m]).path.deep_view()
                            == c.take(depth as int),
            decreases self.max_guesses - depth,
        {
            let flen = frontier.len();
            // look for a state that already covers the grid's letters
            let mut k: usize = 0;
            while k < flen
                invariant
                    self.wf(),
                    words == valid_words.deep_view(),
                    all == self.all_letters@.to_set(),
                    maxg == self.max_guesses as int,
                    forall|i2: int|
                        0 <= i2 < words.len() ==> self.spec_valid_word(#[trigger] words[i2]),
                    1 <= depth <= self.max_guesses,
                    flen == frontier@.len(),
                    k <= flen,
                    forall|m: int|
                        0 <= m < frontier@.len() ==> st_inv(
                            *self,
                            words,
                            #[trigger] frontier@[m],
                            depth as int,
                        ),
                    forall|c: Seq<Seq<char>>|
                        #[trigger] is_solution_over(words, all, maxg, c) ==> c.len()
                            >= depth as int,
                    forall|m: int|
                        0 <= m < k ==> (#[trigger] frontier@[m]).used@.len()
                            != self.all_letters@.len(),
                decreases flen - k,
            {
                if frontier[k].used.len() == self.all_letters.len() {
                    let sol = clone_words(&frontier[k].path);
                    proof {
                        lemma_cover_iff_len(
                            *self,
                            words,
                            frontier@[k as int],
                            depth as int,
                        );
                        assert(is_solution_over(words, all, maxg, sol.deep_view()));
                    }
                    return Some(sol);
                }
                k += 1;
            }
            // no state of this length covers, so no solution is this short
            proof {
                assert forall|c: Seq<Seq<char>>|
                    #[trigger] is_solution_over(words, all, maxg, c) implies c.len()
                    >= depth as int + 1 by {
                    if c.len() == depth as int {
                        let m = choose|m: int|
                            0 <= m < frontier@.len()
                                && (#[trigger] frontier@[m]).path.deep_view() == c.take(
                                depth as int,
                            );
                        assert(c.take(depth as int) =~= c);
                        lemma_cover_iff_len(*self, words, frontier@[m], depth as int);
                        assert(false);
                    }
                }
            }
            if depth >= self.max_guesses {
                proof {
                    assert forall|c: Seq<Seq<char>>|
                        !(#[trigger] is_solution_over(words, all, maxg, c)) by {
                        if is_solution_over(words, all, maxg, c) {
                            assert(c.len() >= depth as int + 1);
                            assert(c.len() <= maxg);
                            assert(false);
                        }
                    }
                }
                return None;
            }
            // extend every chain of this level by every fitting word
            let mut next: Vec<SearchState> = Vec::new();
            let mut k: usize = 0;
            while k < flen
                invariant
                    self.wf(),
                    words == valid_words.deep_view(),
                    all == self.all_letters@.to_set(),
                    maxg == self.max_guesses as int,
                    forall|i2: int|
                        0 <= i2 < words.len() ==> self.spec_valid_word(#[trigger] words[i2]),
                    1 <= depth < self.max_guesses,
                    flen == frontier@.len(),
                    k <= flen,
                    forall|m: int|
                        0 <= m < frontier@.len() ==> st_inv(
                            *self,
                            words,
                            #[trigger] frontier@[m],
                            depth as int,
                        ),
                    forall|m: int|
                        0 <= m < next@.len() ==> st_inv(
                            *self,
                            words,
                            #[trigger] next@[m],
                            depth as int + 1,
                        ),
                    forall|c: Seq<Seq<char>>|
                        #[trigger] is_solution_over(words, all, maxg, c) ==> c.len()
                            >= depth as int + 1,
                    forall|c: Seq<Seq<char>>|
                        #[trigger] is_solution_over(words, all, maxg, c) ==> (exists|m: int|
                            k <= m < flen && (#[trigger] frontier@[m]).path.deep_view()
                                == c.take(depth as int)) || (exists|m: int|
                            0 <= m < next@.len() && (#[trigger] next@[m]).path.deep_view()
                                == c.take(depth as int + 1)),
                decreases flen - k,
            {
                let ghost pdk = frontier@[k as int].path.deep_view();
                let plen = frontier[k].path.len();
                proof {
                    assert(st_inv(*self, words, frontier@[k as int], depth as int));
                    assert(words.contains(pdk[depth as int - 1]));
                    let wi = choose|wi: int|
                        0 <= wi < words.len() && words[wi] == pdk[depth as int - 1];
                    assert(self.spec_valid_word(words[wi]));
                    lemma_deep_index_strings(frontier@[k as int].path, depth as int - 1);
                }
                let last_word = &frontier[k].path[plen - 1];
                let ln = last_word.as_str().unicode_len();
                let tail_ch = last_word.as_str().get_char(ln - 1);
                proof {
                    assert(tail_ch == pdk[depth as int - 1].last());
                }
                let mut i2: usize = 0;
                while i2 < valid_words.len()
                    invariant
                        self.wf(),
                        words == valid_words.deep_view(),
                        all == self.all_letters@.to_set(),
                        maxg == self.max_guesses as int,
                        forall|i3: int|
                            0 <= i3 < words.len() ==> self.spec_valid_word(#[trigger] words[i3]),
                        1 <= depth < self.max_guesses,
                        flen == frontier@.len(),
                        0 <= k < flen,
                        i2 <= words.len(),
                        pdk == frontier@[k as int].path.deep_view(),
                        forall|m: int|
                            0 <= m < frontier@.len() ==> st_inv(
                                *self,
                                words,
                                #[trigger] frontier@[m],
                                depth as int,
                            ),
                        tail_ch == pdk[depth as int - 1].last(),
                        forall|m: int|
                            0 <= m < next@.len() ==> st_inv(
                                *self,
                                words,
                                #[trigger] next@[m],
                                depth as int + 1,
                            ),
                        forall|c: Seq<Seq<char>>|
                            #[trigger] is_solution_over(words, all, maxg, c) ==> c.len()
                                >= depth as int + 1,
                        forall|c: Seq<Seq<char>>|
                            #[trigger] is_solution_over(words, all, maxg, c) ==> (exists|m: int|
                                k + 1 <= m < flen && (#[trigger] frontier@[m]).path.deep_view()
                                    == c.take(depth as int)) || (c.take(depth as int)
                                == frontier@[k as int].path.deep_view() && exists|i3: int|
                                i2 <= i3 < words.len() && words[i3] == c[depth as int]) || (
                            exists|m: int|
                                0 <= m < next@.len() && (#[trigger] next@[m]).path.deep_view()
                                    == c.take(depth as int + 1)),
                    decreases words.len() - i2,
                {
                    proof {
                        lemma_deep_index_strings(*valid_words, i2 as int);
                        assert(self.spec_valid_word(words[i2 as int]));
                    }
                    let w = &valid_words[i2];
                    let head_ch = w.as_str().get_char(0);
                    let dup = contains_word(&frontier[k].path, w);
                    let ghost old_next = next@;
                    if head_ch == tail_ch && !dup {
                        let st = &frontier[k];
                        let mut used2 = clone_chars(&st.used);
                        let wchars = str_chars(w.as_str());
                        add_letters(&mut used2, &wchars);
                        let mut path2 = clone_words(&st.path);
                        path2.push(w.clone());
                        let ghost pd2 = path2.deep_view();
                        proof {
                            assert(pd2 =~~= pdk.push(words[i2 as int]));
                            lemma_no_dup_push(pdk, words[i2 as int]);
                            assert forall|j: int| 1 <= j < pd2.len() implies (#[trigger] pd2[j])
                                .first() == pd2[j - 1].last() by {
                                if j < depth as int {
                                    assert(pdk[j].first() == pdk[j - 1].last());
                                }
                            }
                            lemma_letter_set_push(pdk, words[i2 as int]);
                        }
                        let st2 = SearchState { used: used2, path: path2 };
                        proof {
                            assert(st_inv(*self, words, st2, depth as int + 1));
                        }
                        next.push(st2);
                    }
                    proof {
                        assert forall|c: Seq<Seq<char>>|
                            #[trigger] is_solution_over(words, all, maxg, c) implies (exists|
                            m: int,
                        |
                            k + 1 <= m < flen && (#[trigger] frontier@[m]).path.deep_view()
                                == c.take(depth as int)) || (c.take(depth as int)
                            == frontier@[k as int].path.deep_view() && exists|i3: int|
                            i2 + 1 <= i3 < words.len() && words[i3] == c[depth as int]) || (exists|
                            m: int,
                        |
                            0 <= m < next@.len() && (#[trigger] next@[m]).path.deep_view()
                                == c.take(depth as int + 1)) by {
                            if c.take(depth as int) == pdk && exists|i3: int|
                                i2 <= i3 < words.len() && words[i3] == c[depth as int] {
                                let i3 = choose|i3: int|
                                    i2 <= i3 < words.len() && words[i3] == c[depth as int];
                                if i3 == i2 {
                                    // this word extends the chain toward c
                                    assert(c.len() >= depth as int + 1);
                                    lemma_no_dup_take_excludes(c, depth as int);
                                    assert(c[depth as int].first() == c[depth as int - 1].last());
                                    assert(c.take(depth as int)[depth as int - 1]
                                        == c[depth as int - 1]);
                                    assert(head_ch == tail_ch);
                                    assert(!dup);
                                    assert(next@.len() == old_next.len() + 1);
                                    let m = next@.len() - 1;
                                    assert(c.take(depth as int).push(c[depth as int]) =~= c.take(
                                        depth as int + 1,
                                    ));
                                    assert(next@[m].path.deep_view() == c.take(depth as int + 1));
                                } else {
                                    assert(i2 + 1 <= i3 < words.len() && words[i3]
                                        == c[depth as int]);
                                }
                            } else {
                                if exists|m: int|
                                    0 <= m < old_next.len() && (#[trigger] old_next[m])
                                        .path.deep_view() == c.take(depth as int + 1) {
                                    let m = choose|m: int|
                                        0 <= m < old_next.len() && (#[trigger] old_next[m])
                                            .path.deep_view() == c.take(depth as int + 1);
                                    assert(next@[m].path.deep_view() == c.take(
                                        depth as int + 1,
                                    ));
                                }
                            }
                        }
                    }
                    i2 += 1;
                }
                k += 1;
            }
            frontier = next;
            depth += 1;
        }
    }

    /// Filters the dictionary to the legal words and searches for a
    /// shortest covering chain, re-checking any found chain's letter
    /// coverage independently before releasing it. `Some` comes back
    /// exactly when the puzzle has a solution within `max_guesses`
    /// words, and then holds a shortest one.
    pub fn solve(&self) -> (r: Option<Vec<String>>)
        requires
            self.wf(),
        ensures
            match r {
                Some(sol) => self.spec_is_solution(sol.deep_view()) && forall|c: Seq<Seq<char>>|
                    #[trigger] self.spec_is_solution(c) ==> c.len() >= sol.deep_view().len(),
                None => forall|c: Seq<Seq<char>>| !(#[trigger] self.spec_is_solution(c)),
            },
    {
        let valid_words = self.generate_words();
        proof {
            self.lemma_filter_legal_all_legal(self.dictionary.deep_view());
        }
        let solution = self.solve_bfs(&valid_words);
        match solution {
            Some(sol) => {
                if self.is_solution_valid(&sol) {
                    Some(sol)
                } else {
                    proof {
                        assert(false);
                    }
                    None
                }
            },
            None => None,
        }
    }
}

/// A grid that needs more than `max_guesses` words to cover its letters
/// is unsolvable: when every covering chain of legal words is longer
/// than the bound, nothing satisfies `spec_is_solution`, so `solve` owes
/// `None` by its contract rather than a partial chain.
pub proof fn lemma_unsolvable_within_bound(g: Grid)
    requires
        forall|c: Seq<Seq<char>>|
            #[trigger] chain_from(g.spec_legal_words(), c) && letter_set(c)
                == g.all_letters@.to_set() ==> c.len() > g.max_guesses,
    ensures
        forall|c: Seq<Seq<char>>| !(#[trigger] g.spec_is_solution(c)),
{
    assert forall|c: Seq<Seq<char>>| !(#[trigger] g.spec_is_solution(c)) by {
        if g.spec_is_solution(c) {
            assert(chain_from(g.spec_legal_words(), c));
            assert(c.len() > g.max_guesses);
            assert(false);
        }
    }
}

} // verus!
