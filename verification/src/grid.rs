use vstd::prelude::*;

use crate::letters::{
    comma_count, concat_all, contains_char, dedup, lemma_concat_all_push, lemma_dedup_props,
    lemma_split_commas_len, letter_set, split_commas, str_chars, add_letters,
};

verus! {

/// The number of words a solution chain may hold when no override is given.
pub const DEFAULT_MAX_GUESSES: usize = 6;

/// One of the four edges of the puzzle square.
#[derive(Debug, PartialEq, Eq, Structural, Clone, Copy)]
pub enum Side {
    Top,
    Right,
    Bottom,
    Left,
}

/// The position a side occupies in the fixed Top, Right, Bottom, Left order.
pub open spec fn side_index(s: Side) -> int {
    match s {
        Side::Top => 0,
        Side::Right => 1,
        Side::Bottom => 2,
        Side::Left => 3,
    }
}

/// The raw command-line arguments the puzzle is built from.
pub struct Args {
    pub grid: String,
    pub max_guesses: Option<usize>,
}

/// Whether the raw grid string holds exactly four comma-separated groups.
pub fn is_valid_args_length(args: &Args) -> (b: bool)
    ensures
        b == (split_commas(args.grid@).len() == 4),
{
    let chars = str_chars(args.grid.as_str());
    let mut commas: usize = 0;
    let mut i: usize = 0;
    while i < chars.len()
        invariant
            i <= chars@.len(),
            commas <= i,
            commas == comma_count(chars@.take(i as int)),
        decreases chars@.len() - i,
    {
        proof {
            assert(chars@.take(i as int + 1).drop_last() =~= chars@.take(i as int));
        }
        if chars[i] == ',' {
            commas += 1;
        }
        i += 1;
    }
    proof {
        assert(chars@.take(chars@.len() as int) =~= chars@);
        lemma_split_commas_len(chars@);
    }
    commas == 3
}

/// The sides a raw grid string describes: its comma-separated groups, in
/// the fixed side order, with groups past the fourth ignored.
pub open spec fn spec_sides(s: Seq<char>) -> Seq<Seq<char>> {
    let groups = split_commas(s);
    if groups.len() <= 4 {
        groups
    } else {
        groups.take(4)
    }
}

/// The bound on the chain length that a `max_guesses` override selects.
pub open spec fn spec_max_guesses(o: Option<usize>) -> usize {
    match o {
        Some(m) => m,
        None => DEFAULT_MAX_GUESSES,
    }
}

/// A Letter Boxed puzzle: the letters on each side of the square, the
/// dictionary of candidate words, the distinct letters of the grid, and
/// the bound on how many words a solution may chain.
pub struct Grid {
    pub sides: Vec<Vec<char>>,
    pub dictionary: Vec<String>,
    pub all_letters: Vec<char>,
    pub max_guesses: usize,
}

impl Grid {
    /// The invariant the constructor establishes: at most four sides, and
    /// `all_letters` lists each distinct grid letter exactly once.
    pub open spec fn wf(self) -> bool {
        &&& self.sides@.len() <= 4
        &&& self.all_letters@.no_duplicates()
        &&& self.all_letters@.to_set() == letter_set(self.sides.deep_view())
    }

    /// Builds the puzzle from the raw comma-separated grid string, keeping
    /// the dictionary as given and the default guess bound when none is
    /// passed.
    pub fn new(grid: String, dictionary: Vec<String>, max_guesses: Option<usize>) -> (g: Grid)
        ensures
            g.wf(),
            g.sides.deep_view() == spec_sides(grid@),
            g.all_letters@ == dedup(concat_all(spec_sides(grid@))),
            g.dictionary == dictionary,
            g.max_guesses == spec_max_guesses(max_guesses),
    {
        let chars = str_chars(grid.as_str());
        let mut groups: Vec<Vec<char>> = Vec::new();
        groups.push(Vec::new());
        proof {
            assert(groups.deep_view() =~~= split_commas(chars@.take(0)));
        }
        let mut i: usize = 0;
        while i < chars.len()
            invariant
                i <= chars@.len(),
                groups@.len() >= 1,
                groups.deep_view() == split_commas(chars@.take(i as int)),
            decreases chars@.len() - i,
        {
            proof {
                assert(chars@.take(i as int + 1).drop_last() =~= chars@.take(i as int));
            }
            let ghost prev = groups.deep_view();
            if chars[i] == ',' {
                groups.push(Vec::new());
                proof {
                    assert(groups.deep_view() =~~= prev.push(Seq::<char>::empty()));
                }
            } else {
                let c = chars[i];
                let mut last_group = groups.pop().unwrap();
                last_group.push(c);
                groups.push(last_group);
                proof {
                    assert(groups.deep_view() =~~= prev.update(
                        prev.len() - 1,
                        prev.last().push(c),
                    ));
                }
            }
            i += 1;
        }
        proof {
            assert(chars@.take(chars@.len() as int) =~= chars@);
        }
        // keep at most the first four groups, as the four sides
        let mut sides: Vec<Vec<char>> = groups;
        let ghost full = sides.deep_view();
        if sides.len() > 4 {
            sides.truncate(4);
            proof {
                assert(sides.deep_view() =~~= full.take(4));
            }
        }
        assert(sides.deep_view() == spec_sides(grid@));
        // collect the distinct letters of the grid, in first-seen order
        let mut all_letters: Vec<char> = Vec::new();
        proof {
            assert(all_letters@ =~= dedup(concat_all(sides.deep_view().take(0))));
            assert(concat_all(sides.deep_view().take(0)) =~= Seq::<char>::empty());
        }
        let mut j: usize = 0;
        while j < sides.len()
            invariant
                j <= sides@.len(),
                all_letters@ == dedup(concat_all(sides.deep_view().take(j as int))),
            decreases sides@.len() - j,
        {
            let ghost sd = sides.deep_view();
            proof {
                lemma_dedup_props(concat_all(sd.take(j as int)));
                crate::letters::lemma_deep_index_chars(sides, j as int);
                assert(sd.take(j as int).push(sd[j as int]) =~= sd.take(j as int + 1));
                lemma_concat_all_push(sd.take(j as int), sd[j as int]);
                crate::letters::lemma_dedup_add_dedup(
                    concat_all(sd.take(j as int)),
                    sd[j as int],
                );
            }
            add_letters(&mut all_letters, &sides[j]);
            j += 1;
        }
        proof {
            assert(sides.deep_view().take(sides@.len() as int) =~= sides.deep_view());
            lemma_dedup_props(concat_all(sides.deep_view()));
        }
        Grid { sides, dictionary, all_letters, max_guesses: match max_guesses {
            Some(m) => m,
            None => DEFAULT_MAX_GUESSES,
        } }
    }

    /// A grid is valid when it has exactly four sides of exactly three
    /// letters each and twelve distinct letters in all.
    pub open spec fn spec_is_valid(self) -> bool {
        &&& self.sides@.len() == 4
        &&& forall|j: int| 0 <= j < 4 ==> (#[trigger] self.sides.deep_view()[j]).len() == 3
        &&& letter_set(self.sides.deep_view()).len() == 12
    }

    /// Checks the grid shape: four sides, three letters each, twelve
    /// distinct letters.
    pub fn is_valid(&self) -> (b: bool)
        requires
            self.wf(),
        ensures
            b == self.spec_is_valid(),
    {
        if self.sides.len() != 4 {
            return false;
        }
        let mut j: usize = 0;
        while j < 4
            invariant
                j <= 4,
                self.sides@.len() == 4,
                forall|k: int| 0 <= k < j ==> (#[trigger] self.sides.deep_view()[k]).len() == 3,
            decreases 4 - j,
        {
            if self.sides[j].len() != 3 {
                assert(self.sides.deep_view()[j as int].len() != 3);
                return false;
            }
            assert(self.sides.deep_view()[j as int].len() == 3);
            j += 1;
        }
        proof {
            self.all_letters@.unique_seq_to_set();
        }
        self.all_letters.len() == 12
    }

    /// The first side, in Top, Right, Bottom, Left order, whose letters
    /// hold `c`, if any does.
    pub open spec fn spec_side_of(self, c: char) -> Option<int> {
        first_side_from(self.sides.deep_view(), c, 0)
    }

    /// Looks a letter up among the sides, returning the first side that
    /// holds it.
    pub fn get_side(&self, letter: &char) -> (r: Option<Side>)
        requires
            self.wf(),
        ensures
            match r {
                Some(s) => self.spec_side_of(*letter) == Some(side_index(s)),
                None => self.spec_side_of(*letter) is None,
            },
    {
        let ghost sd = self.sides.deep_view();
        let mut j: usize = 0;
        while j < self.sides.len()
            invariant
                self.wf(),
                j <= self.sides@.len(),
                sd == self.sides.deep_view(),
                first_side_from(sd, *letter, 0) == first_side_from(sd, *letter, j as int),
            decreases self.sides@.len() - j,
        {
            proof {
                crate::letters::lemma_deep_index_chars(self.sides, j as int);
            }
            if contains_char(&self.sides[j], *letter) {
                assert(sd[j as int].contains(*letter));
                let s = if j == 0 {
                    Side::Top
                } else if j == 1 {
                    Side::Right
                } else if j == 2 {
                    Side::Bottom
                } else {
                    Side::Left
                };
                assert(first_side_from(sd, *letter, j as int) == Some(j as int));
                return Some(s);
            }
            assert(!sd[j as int].contains(*letter));
            j += 1;
        }
        None
    }

    /// A word is legal for this grid when it has at least three letters,
    /// every letter lies on some side, and no two consecutive letters lie
    /// on the same side.
    pub open spec fn spec_valid_word(self, w: Seq<char>) -> bool {
        &&& w.len() >= 3
        &&& forall|i: int| 0 <= i < w.len() ==> (#[trigger] self.spec_side_of(w[i])) is Some
        &&& forall|i: int|
            1 <= i < w.len() ==> (#[trigger] self.spec_side_of(w[i])) != self.spec_side_of(
                w[i - 1],
            )
    }

    /// Checks the legality of one dictionary word against the grid,
    /// scanning left to right and stopping at the first violation.
    pub fn is_valid_word(&self, word: &str) -> (b: bool)
        requires
            self.wf(),
        ensures
            b == self.spec_valid_word(word@),
    {
        let n = word.unicode_len();
        if n < 3 {
            return false;
        }
        let mut last_side: Option<Side> = None;
        let mut i: usize = 0;
        while i < n
            invariant
                self.wf(),
                n == word@.len(),
                n >= 3,
                i <= n,
                forall|k: int| 0 <= k < i ==> (#[trigger] self.spec_side_of(word@[k])) is Some,
                forall|k: int|
                    1 <= k < i ==> (#[trigger] self.spec_side_of(word@[k]))
                        != self.spec_side_of(word@[k - 1]),
                i == 0 <==> last_side is None,
                i > 0 ==> match last_side {
                    Some(s) => self.spec_side_of(word@[i - 1]) == Some(side_index(s)),
                    None => false,
                },
            decreases n - i,
        {
            let c = word.get_char(i);
            match self.get_side(&c) {
                Some(side) => {
                    if let Some(prev) = last_side {
                        if side == prev {
                            assert(self.spec_side_of(word@[i as int]) == self.spec_side_of(
                                word@[i as int - 1],
                            ));
                            return false;
                        }
                    }
                    last_side = Some(side);
                },
                None => {
                    assert(self.spec_side_of(word@[i as int]) is None);
                    return false;
                },
            }
            i += 1;
        }
        true
    }

    /// The subsequence of the dictionary whose words are legal for this
    /// grid, in dictionary order.
    pub open spec fn filter_legal(self, d: Seq<Seq<char>>) -> Seq<Seq<char>>
        decreases d.len(),
    {
        if d.len() == 0 {
            Seq::<Seq<char>>::empty()
        } else {
            let r = self.filter_legal(d.drop_last());
            if self.spec_valid_word(d.last()) {
                r.push(d.last())
            } else {
                r
            }
        }
    }

    /// The legal words of this grid's own dictionary.
    pub open spec fn spec_legal_words(self) -> Seq<Seq<char>> {
        self.filter_legal(self.dictionary.deep_view())
    }

    /// Every word the legality filter keeps is legal.
    pub proof fn lemma_filter_legal_all_legal(self, d: Seq<Seq<char>>)
        ensures
            forall|i: int|
                0 <= i < self.filter_legal(d).len() ==> self.spec_valid_word(
                    #[trigger] self.filter_legal(d)[i],
                ),
        decreases d.len(),
    {
        if d.len() > 0 {
            self.lemma_filter_legal_all_legal(d.drop_last());
            let r = self.filter_legal(d.drop_last());
            if self.spec_valid_word(d.last()) {
                assert(self.filter_legal(d) == r.push(d.last()));
                assert forall|i: int|
                    0 <= i < self.filter_legal(d).len() implies self.spec_valid_word(
                    self.filter_legal(d)[i],
                ) by {
                    if i < r.len() {
                        assert(self.spec_valid_word(r[i]));
                    }
                }
            } else {
                assert(self.filter_legal(d) == r);
            }
        }
    }

    /// Filters the dictionary down to the words that are legal for this
    /// grid, preserving their relative order.
    pub fn generate_words(&self) -> (r: Vec<String>)
        requires
            self.wf(),
        ensures
            r.deep_view() == self.spec_legal_words(),
    {
        let ghost dict = self.dictionary.deep_view();
        let mut result: Vec<String> = Vec::new();
        proof {
            assert(result.deep_view() =~~= self.filter_legal(dict.take(0)));
        }
        let mut i: usize = 0;
        while i < self.dictionary.len()
            invariant
                self.wf(),
                i <= self.dictionary@.len(),
                dict == self.dictionary.deep_view(),
                result.deep_view() == self.filter_legal(dict.take(i as int)),
            decreases self.dictionary@.len() - i,
        {
            proof {
                assert(dict.take(i as int + 1).drop_last() =~= dict.take(i as int));
                assert(dict.take(i as int + 1).last() == dict[i as int]);
            }
            let ghost prev = result.deep_view();
            let w = &self.dictionary[i];
            assert(w@ == dict[i as int]);
            if self.is_valid_word(w.as_str()) {
                result.push(w.clone());
                proof {
                    assert(result.deep_view() =~~= prev.push(dict[i as int]));
                }
            }
            i += 1;
        }
        proof {
            assert(dict.take(self.dictionary@.len() as int) =~= dict);
        }
        result
    }
}

/// The first side at position `j` or later whose letters hold `c`.
pub open spec fn first_side_from(sd: Seq<Seq<char>>, c: char, j: int) -> Option<int>
    decreases sd.len() - j,
{
    if j < 0 || j >= sd.len() {
        None::<int>
    } else if sd[j].contains(c) {
        Some(j)
    } else {
        first_side_from(sd, c, j + 1)
    }
}

/// A found side is a side of the grid that holds the letter.
pub proof fn lemma_first_side_found(sd: Seq<Seq<char>>, c: char, j: int, k: int)
    requires
        first_side_from(sd, c, j) == Some(k),
        0 <= j,
    ensures
        j <= k < sd.len() && sd[k].contains(c),
    decreases sd.len() - j,
{
    if j < sd.len() && !sd[j].contains(c) {
        lemma_first_side_found(sd, c, j + 1, k);
    }
}

} // verus!
