//! The path explorer and the search coordinator.
//!
//! A board is a rectangular grid of tiles; a tile is a non-empty run of
//! lower-case letters (so a single cell may carry more than one letter).
//! The explorer walks king-move adjacent, non-repeating cell paths from a
//! starting cell and collects every dictionary word of more than two
//! characters that some path spells; the coordinator runs one exploration
//! per starting cell and merges the findings into a duplicate-free list.

use vstd::prelude::*;
use crate::trie::{TrieNode, all_letters, valid_word, is_letter};

verus! {

/// Every row of `b` is as long as the first: the board is rectangular.
pub open spec fn rectangular(b: Seq<Seq<Seq<u8>>>) -> bool {
    forall|i: int| 0 <= i < b.len() ==> (#[trigger] b[i]).len() == b[0].len()
}

/// Every tile of `b` is a non-empty run of lower-case letters.
pub open spec fn tiles_ok(b: Seq<Seq<Seq<u8>>>) -> bool {
    forall|i: int, j: int|
        0 <= i < b.len() && 0 <= j < b[i].len() ==> valid_word(#[trigger] b[i][j])
}

/// A board the solver accepts: rectangular with well-formed tiles.
pub open spec fn board_ok(b: Seq<Seq<Seq<u8>>>) -> bool {
    rectangular(b) && tiles_ok(b)
}

/// `cell` lies on the board.
pub open spec fn in_bounds(b: Seq<Seq<Seq<u8>>>, cell: (usize, usize)) -> bool {
    cell.0 < b.len() && cell.1 < b[cell.0 as int].len()
}

/// King-move adjacency: the cells differ by at most one in each coordinate
/// and are not the same cell.
pub open spec fn adjacent(a: (usize, usize), c: (usize, usize)) -> bool {
    &&& a.0 <= c.0 + 1
    &&& c.0 <= a.0 + 1
    &&& a.1 <= c.1 + 1
    &&& c.1 <= a.1 + 1
    &&& !(a.0 == c.0 && a.1 == c.1)
}

/// A legal path: on the board, each step king-move adjacent, no cell twice.
pub open spec fn path_ok(b: Seq<Seq<Seq<u8>>>, p: Seq<(usize, usize)>) -> bool {
    &&& forall|i: int| 0 <= i < p.len() ==> in_bounds(b, #[trigger] p[i])
    &&& forall|i: int| 0 <= i < p.len() - 1 ==> adjacent(#[trigger] p[i], p[i + 1])
    &&& forall|i: int, j: int| 0 <= i < j < p.len() ==> p[i] != p[j]
}

/// The tile at `cell`.
pub open spec fn tile_at(b: Seq<Seq<Seq<u8>>>, cell: (usize, usize)) -> Seq<u8> {
    b[cell.0 as int][cell.1 as int]
}

/// The word a path spells: the tiles of its cells, concatenated in order.
pub open spec fn word_of(b: Seq<Seq<Seq<u8>>>, p: Seq<(usize, usize)>) -> Seq<u8>
    decreases p.len(),
{
    if p.len() == 0 {
        Seq::<u8>::empty()
    } else {
        word_of(b, p.drop_last()) + tile_at(b, p.last())
    }
}

/// The solver records `w`: long enough and in the dictionary.
pub open spec fn accepted(t: TrieNode, w: Seq<u8>) -> bool {
    w.len() > 2 && t.contains_word(w)
}

/// All accepted words spelled by legal paths that continue `prefix`
/// (including the word of `prefix` itself).
pub open spec fn found_from(
    b: Seq<Seq<Seq<u8>>>,
    t: TrieNode,
    prefix: Seq<(usize, usize)>,
) -> Set<Seq<u8>> {
    Set::new(
        |w: Seq<u8>|
            exists|p: Seq<(usize, usize)>|
                #[trigger] path_ok(b, p) && prefix.is_prefix_of(p) && w == word_of(b, p)
                    && accepted(t, w),
    )
}

/// All accepted words spelled by any non-empty legal path on the board.
pub open spec fn solution(b: Seq<Seq<Seq<u8>>>, t: TrieNode) -> Set<Seq<u8>> {
    Set::new(
        |w: Seq<u8>|
            exists|p: Seq<(usize, usize)>|
                #[trigger] path_ok(b, p) && p.len() >= 1 && w == word_of(b, p) && accepted(t, w),
    )
}

/// No word appears twice in the list.
pub open spec fn no_dups(ss: Seq<Seq<u8>>) -> bool {
    forall|i: int, j: int| 0 <= i < j < ss.len() ==> ss[i] != ss[j]
}

/// How the three nested views of a board line up with its deep view.
proof fn lemma_board_views(board: &Vec<Vec<Vec<u8>>>)
    ensures
        board.deep_view().len() == board@.len(),
        forall|i: int|
            0 <= i < board@.len() ==> (#[trigger] board.deep_view()[i]).len() == board@[i]@.len(),
        forall|i: int, j: int|
            0 <= i < board@.len() && 0 <= j < board@[i]@.len() ==> board.deep_view()[i][j]
                == #[trigger] board@[i]@[j]@,
{
    assert forall|i: int|
        0 <= i < board@.len() implies (#[trigger] board.deep_view()[i]).len()
        == board@[i]@.len() by {
        assert(board.deep_view()[i] == board@[i].deep_view());
    }
    assert forall|i: int, j: int|
        0 <= i < board@.len() && 0 <= j < board@[i]@.len() implies board.deep_view()[i][j]
        == #[trigger] board@[i]@[j]@ by {
        assert(board.deep_view()[i] == board@[i].deep_view());
        assert(board@[i].deep_view()[j] == board@[i]@[j].deep_view());
    }
}

/// How a word list's deep view lines up with the views of its entries.
proof fn lemma_words_views(words: &Vec<Vec<u8>>)
    ensures
        words.deep_view().len() == words@.len(),
        forall|i: int|
            0 <= i < words@.len() ==> #[trigger] words.deep_view()[i] == words@[i]@,
{
}

/// A fresh copy of `word` with the same bytes.
fn copy_word(word: &Vec<u8>) -> (r: Vec<u8>)
    ensures
        r@ == word@,
{
    let mut r: Vec<u8> = Vec::new();
    let mut i: usize = 0;
    while i < word.len()
        invariant
            i <= word@.len(),
            r@ =~= word@.take(i as int),
        decreases word@.len() - i,
    {
        r.push(word[i]);
        i = i + 1;
    }
    proof {
        assert(r@ =~= word@);
    }
    r
}

/// Byte-for-byte equality of two words.
fn words_equal(a: &Vec<u8>, b: &Vec<u8>) -> (r: bool)
    ensures
        r == (a@ == b@),
{
    if a.len() != b.len() {
        return false;
    }
    let mut i: usize = 0;
    while i < a.len()
        invariant
            i <= a@.len(),
            a@.len() == b@.len(),
            forall|j: int| 0 <= j < i ==> a@[j] == b@[j],
        decreases a@.len() - i,
    {
        if a[i] != b[i] {
            return false;
        }
        i = i + 1;
    }
    proof {
        assert(a@ =~= b@);
    }
    true
}

/// Whether `cell` already lies on the current path.
fn contains_cell(cells: &Vec<(usize, usize)>, cell: (usize, usize)) -> (r: bool)
    ensures
        r == cells@.contains(cell),
{
    let mut i: usize = 0;
    while i < cells.len()
        invariant
            i <= cells@.len(),
            forall|j: int| 0 <= j < i ==> cells@[j] != cell,
        decreases cells@.len() - i,
    {
        let c = cells[i];
        if c.0 == cell.0 && c.1 == cell.1 {
            proof {
                assert(cells@[i as int] == cell);
            }
            return true;
        }
        i = i + 1;
    }
    false
}

/// Whether `word` already stands in the list.
fn contains_word_vec(words: &Vec<Vec<u8>>, word: &Vec<u8>) -> (r: bool)
    ensures
        r == words.deep_view().contains(word@),
{
    proof {
        lemma_words_views(words);
    }
    let mut i: usize = 0;
    while i < words.len()
        invariant
            i <= words@.len(),
            words.deep_view().len() == words@.len(),
            forall|j: int| 0 <= j < words@.len() ==> #[trigger] words.deep_view()[j] == words@[j]@,
            forall|j: int| 0 <= j < i ==> words.deep_view()[j] != word@,
        decreases words@.len() - i,
    {
        if words_equal(&words[i], word) {
            proof {
                assert(words.deep_view()[i as int] == word@);
            }
            return true;
        }
        i = i + 1;
    }
    false
}

/// A location may be explored next: it lies on the board and is not yet on
/// the current path.
pub fn valid_recurse(
    new_location: (usize, usize),
    visited_so_far: &Vec<(usize, usize)>,
    board: &Vec<Vec<Vec<u8>>>,
) -> (r: bool)
    requires
        board@.len() > 0,
        rectangular(board.deep_view()),
    ensures
        r == (in_bounds(board.deep_view(), new_location) && !visited_so_far@.contains(
            new_location,
        )),
{
    proof {
        lemma_board_views(board);
    }
    if new_location.0 >= board.len() || new_location.1 >= board[0].len() {
        return false;
    }
    !contains_cell(visited_so_far, new_location)
}

/// Records `word` when it is long enough and the dictionary holds it.
pub fn add_word(words: &mut Vec<Vec<u8>>, word: &Vec<u8>, root: &TrieNode)
    requires
        root.wf(),
        all_letters(word@),
    ensures
        final(words).deep_view() == if accepted(*root, word@) {
            old(words).deep_view().push(word@)
        } else {
            old(words).deep_view()
        },
{
    proof {
        lemma_words_views(words);
    }
    if word.len() > 2 && crate::trie::search(root, word) {
        let w = copy_word(word);
        words.push(w);
        proof {
            lemma_words_views(words);
            assert(words.deep_view() =~= old(words).deep_view().push(word@));
        }
    }
}

/// Adds every word of `more` that the list does not yet hold: afterwards the
/// list holds exactly the union, still without duplicates.
pub fn merge_words(acc: &mut Vec<Vec<u8>>, more: &Vec<Vec<u8>>)
    requires
        no_dups(old(acc).deep_view()),
    ensures
        no_dups(final(acc).deep_view()),
        final(acc).deep_view().to_set() == old(acc).deep_view().to_set().union(
            more.deep_view().to_set(),
        ),
{
    proof {
        lemma_words_views(more);
    }
    let mut i: usize = 0;
    while i < more.len()
        invariant
            i <= more@.len(),
            more.deep_view().len() == more@.len(),
            forall|j: int| 0 <= j < more@.len() ==> #[trigger] more.deep_view()[j] == more@[j]@,
            no_dups(acc.deep_view()),
            acc.deep_view().to_set() == old(acc).deep_view().to_set().union(
                more.deep_view().take(i as int).to_set(),
            ),
        decreases more@.len() - i,
    {
        let ghost pre = acc.deep_view();
        if !contains_word_vec(acc, &more[i]) {
            let w = copy_word(&more[i]);
            acc.push(w);
            proof {
                lemma_words_views(acc);
                assert(acc.deep_view() =~= pre.push(more@[i as int]@));
                assert forall|k: int, l: int|
                    0 <= k < l < acc.deep_view().len() implies acc.deep_view()[k]
                    != acc.deep_view()[l] by {
                    if l == acc.deep_view().len() - 1 {
                        assert(acc.deep_view()[k] == pre[k]);
                        assert(pre.contains(pre[k]));
                    }
                }
            }
        }
        proof {
            assert(more.deep_view().take(i + 1) =~= more.deep_view().take(i as int).push(
                more.deep_view()[i as int],
            ));
            lemma_to_set_push(more.deep_view().take(i as int), more.deep_view()[i as int]);
            if pre.contains(more@[i as int]@) {
                assert(acc.deep_view().to_set() =~= old(acc).deep_view().to_set().union(
                    more.deep_view().take(i + 1).to_set(),
                ));
            } else {
                lemma_to_set_push(pre, more@[i as int]@);
                assert(acc.deep_view().to_set() =~= old(acc).deep_view().to_set().union(
                    more.deep_view().take(i + 1).to_set(),
                ));
            }
        }
        i = i + 1;
    }
    proof {
        assert(more.deep_view().take(more.deep_view().len() as int) =~= more.deep_view());
    }
}

/// The number of columns of `b` (zero for an empty board).
pub open spec fn cols(b: Seq<Seq<Seq<u8>>>) -> int {
    if b.len() == 0 {
        0
    } else {
        b[0].len() as int
    }
}

/// A legal path visits each cell at most once, so it is no longer than the
/// number of cells on the board.
proof fn lemma_path_len_bound(b: Seq<Seq<Seq<u8>>>, p: Seq<(usize, usize)>)
    requires
        rectangular(b),
        path_ok(b, p),
    ensures
        p.len() <= b.len() * cols(b),
{
    let rows = b.len() as int;
    let c = cols(b);
    let codes = Seq::new(p.len(), |i: int| p[i].0 * c + p[i].1);
    assert forall|i: int| 0 <= i < p.len() implies 0 <= #[trigger] codes[i] < rows * c by {
        assert(in_bounds(b, p[i]));
        assert(p[i].1 < c);
        assert(0 <= p[i].0 * c + p[i].1 < rows * c) by (nonlinear_arith)
            requires
                0 <= (p[i].0 as int) < rows,
                0 <= (p[i].1 as int) < c,
        ;
    }
    assert forall|i: int, j: int|
        0 <= i < codes.len() && 0 <= j < codes.len() && i != j implies codes[i] != codes[j] by {
        if i < j {
            assert(p[i] != p[j]);
        } else {
            assert(p[j] != p[i]);
        }
        assert(in_bounds(b, p[i]));
        assert(in_bounds(b, p[j]));
        assert(p[i].1 < c);
        assert(p[j].1 < c);
        assert(p[i].0 * c + p[i].1 != p[j].0 * c + p[j].1) by (nonlinear_arith)
            requires
                0 <= (p[i].1 as int) < c,
                0 <= (p[j].1 as int) < c,
                p[i].0 != p[j].0 || p[i].1 != p[j].1,
        ;
    }
    assert(codes.no_duplicates());
    codes.unique_seq_to_set();
    vstd::set_lib::lemma_int_range(0, rows * c);
    assert(codes.to_set().subset_of(vstd::set_lib::set_int_range(0, rows * c))) by {
        assert forall|x: int| codes.to_set().contains(x) implies 0 <= x < rows * c by {
            let i = choose|i: int| 0 <= i < codes.len() && codes[i] == x;
            assert(0 <= codes[i] < rows * c);
        }
    }
    vstd::set_lib::lemma_len_subset(codes.to_set(), vstd::set_lib::set_int_range(0, rows * c));
}

/// Every word a legal path spells is made of lower-case letters.
proof fn lemma_word_of_letters(b: Seq<Seq<Seq<u8>>>, p: Seq<(usize, usize)>)
    requires
        tiles_ok(b),
        path_ok(b, p),
    ensures
        all_letters(word_of(b, p)),
    decreases p.len(),
{
    if p.len() > 0 {
        assert(path_ok(b, p.drop_last())) by {
            assert(forall|i: int| 0 <= i < p.len() - 1 ==> p.drop_last()[i] == #[trigger] p[i]);
        }
        lemma_word_of_letters(b, p.drop_last());
        assert(in_bounds(b, p.last()));
        let w1 = word_of(b, p.drop_last());
        let t = tile_at(b, p.last());
        assert(all_letters(t));
        assert forall|i: int| 0 <= i < (w1 + t).len() implies is_letter(#[trigger] (w1 + t)[i]) by {
            if i < w1.len() {
                assert((w1 + t)[i] == w1[i]);
            } else {
                assert((w1 + t)[i] == t[i - w1.len()]);
            }
        }
    }
}

/// A shorter path spells a prefix of the longer path's word, and each added
/// cell adds at least one letter.
proof fn lemma_word_of_extension(b: Seq<Seq<Seq<u8>>>, pre: Seq<(usize, usize)>, p: Seq<(usize, usize)>)
    requires
        tiles_ok(b),
        path_ok(b, p),
        pre.is_prefix_of(p),
    ensures
        word_of(b, pre).is_prefix_of(word_of(b, p)),
        word_of(b, p).len() >= word_of(b, pre).len() + (p.len() - pre.len()),
    decreases p.len(),
{
    if pre.len() == p.len() {
        assert(pre =~= p);
    } else {
        let q = p.drop_last();
        assert(path_ok(b, q)) by {
            assert(forall|i: int| 0 <= i < p.len() - 1 ==> q[i] == #[trigger] p[i]);
        }
        assert(pre.is_prefix_of(q)) by {
            assert(pre =~= q.subrange(0, pre.len() as int));
        }
        lemma_word_of_extension(b, pre, q);
        assert(in_bounds(b, p.last()));
        assert(tile_at(b, p.last()).len() >= 1);
        let w1 = word_of(b, q);
        let t = tile_at(b, p.last());
        assert(word_of(b, p) == w1 + t);
        assert(word_of(b, pre).is_prefix_of(w1 + t)) by {
            assert(word_of(b, pre) =~= (w1 + t).subrange(0, word_of(b, pre).len() as int));
        }
    }
}

/// The accepted word of the current path itself, when there is one.
spec fn base_words(
    b: Seq<Seq<Seq<u8>>>,
    t: TrieNode,
    pre: Seq<(usize, usize)>,
) -> Set<Seq<u8>> {
    if accepted(t, word_of(b, pre)) {
        Set::<Seq<u8>>::empty().insert(word_of(b, pre))
    } else {
        Set::<Seq<u8>>::empty()
    }
}

/// All accepted words of paths that continue `pre` by at least one cell,
/// grouped by the first cell they add.
spec fn neighbor_words(
    b: Seq<Seq<Seq<u8>>>,
    t: TrieNode,
    pre: Seq<(usize, usize)>,
) -> Set<Seq<u8>> {
    Set::new(
        |w: Seq<u8>|
            exists|q: (usize, usize)|
                adjacent(pre.last(), q) && in_bounds(b, q) && #[trigger] found_from(
                    b,
                    t,
                    pre.push(q),
                ).contains(w),
    )
}

/// What an exploration step sees: the word of the path itself, plus the words
/// of all continuations through some adjacent, in-bounds next cell.
proof fn lemma_found_decomposition(
    b: Seq<Seq<Seq<u8>>>,
    t: TrieNode,
    pre: Seq<(usize, usize)>,
)
    requires
        path_ok(b, pre),
        pre.len() >= 1,
    ensures
        found_from(b, t, pre) == base_words(b, t, pre).union(neighbor_words(b, t, pre)),
{
    let lhs = found_from(b, t, pre);
    let rhs = base_words(b, t, pre).union(neighbor_words(b, t, pre));
    assert forall|w: Seq<u8>| lhs.contains(w) implies rhs.contains(w) by {
        let p = choose|p: Seq<(usize, usize)>|
            #[trigger] path_ok(b, p) && pre.is_prefix_of(p) && w == word_of(b, p) && accepted(
                t,
                w,
            );
        if p.len() == pre.len() {
            assert(pre =~= p);
            assert(base_words(b, t, pre).contains(w));
        } else {
            let q = p[pre.len() as int];
            assert(adjacent(p[pre.len() - 1], p[pre.len() as int]));
            assert(pre[pre.len() - 1] == p[pre.len() - 1]) by {
                assert(pre =~= p.subrange(0, pre.len() as int));
            }
            assert(adjacent(pre.last(), q));
            assert(in_bounds(b, q));
            assert(pre.push(q).is_prefix_of(p)) by {
                assert(pre.push(q) =~= p.subrange(0, pre.len() as int + 1));
            }
            assert(found_from(b, t, pre.push(q)).contains(w));
            assert(neighbor_words(b, t, pre).contains(w));
        }
    }
    assert forall|w: Seq<u8>| rhs.contains(w) implies lhs.contains(w) by {
        if base_words(b, t, pre).contains(w) {
            assert(w == word_of(b, pre));
            assert(pre.is_prefix_of(pre)) by {
                assert(pre =~= pre.subrange(0, pre.len() as int));
            }
            assert(path_ok(b, pre) && pre.is_prefix_of(pre) && w == word_of(b, pre) && accepted(
                t,
                w,
            ));
        } else {
            let q = choose|q: (usize, usize)|
                adjacent(pre.last(), q) && in_bounds(b, q) && #[trigger] found_from(
                    b,
                    t,
                    pre.push(q),
                ).contains(w);
            let p = choose|p: Seq<(usize, usize)>|
                #[trigger] path_ok(b, p) && pre.push(q).is_prefix_of(p) && w == word_of(b, p)
                    && accepted(t, w);
            assert(pre.is_prefix_of(p)) by {
                assert(pre =~= p.subrange(0, pre.len() as int)) by {
                    assert(pre.push(q) =~= p.subrange(0, pre.len() as int + 1));
                    assert(forall|i: int|
                        0 <= i < pre.len() ==> pre[i] == #[trigger] pre.push(q)[i]);
                }
            }
        }
    }
    assert(lhs =~= rhs);
}

/// A next cell already on the path leads nowhere: no legal path continues
/// `pre` through it.
proof fn lemma_visited_empty(
    b: Seq<Seq<Seq<u8>>>,
    t: TrieNode,
    pre: Seq<(usize, usize)>,
    q: (usize, usize),
)
    requires
        pre.contains(q),
    ensures
        found_from(b, t, pre.push(q)) == Set::<Seq<u8>>::empty(),
{
    let ext = pre.push(q);
    assert forall|w: Seq<u8>| !found_from(b, t, ext).contains(w) by {
        if found_from(b, t, ext).contains(w) {
            let p = choose|p: Seq<(usize, usize)>|
                #[trigger] path_ok(b, p) && ext.is_prefix_of(p) && w == word_of(b, p) && accepted(
                    t,
                    w,
                );
            let k = choose|k: int| 0 <= k < pre.len() && pre[k] == q;
            assert(ext =~= p.subrange(0, ext.len() as int));
            assert(p[k] == ext[k]);
            assert(p[pre.len() as int] == ext[pre.len() as int]);
            assert(p[k] == p[pre.len() as int]);
        }
    }
    assert(found_from(b, t, ext) =~= Set::<Seq<u8>>::empty());
}

/// Once the word so far is a leaf of the dictionary, the exploration finds
/// nothing beyond the word of the path itself.
proof fn lemma_pruned_found(
    b: Seq<Seq<Seq<u8>>>,
    t: TrieNode,
    pre: Seq<(usize, usize)>,
)
    requires
        tiles_ok(b),
        path_ok(b, pre),
        t.wf(),
        t.leaf_along(word_of(b, pre)),
    ensures
        found_from(b, t, pre) == base_words(b, t, pre),
{
    assert forall|w: Seq<u8>| found_from(b, t, pre).contains(w) implies base_words(
        b,
        t,
        pre,
    ).contains(w) by {
        let p = choose|p: Seq<(usize, usize)>|
            #[trigger] path_ok(b, p) && pre.is_prefix_of(p) && w == word_of(b, p) && accepted(
                t,
                w,
            );
        if p.len() == pre.len() {
            assert(pre =~= p);
        } else {
            lemma_word_of_extension(b, pre, p);
            t.lemma_leaf_no_extension(word_of(b, pre), word_of(b, p));
        }
    }
    assert forall|w: Seq<u8>| base_words(b, t, pre).contains(w) implies found_from(
        b,
        t,
        pre,
    ).contains(w) by {
        assert(w == word_of(b, pre));
        assert(pre.is_prefix_of(pre)) by {
            assert(pre =~= pre.subrange(0, pre.len() as int));
        }
        assert(path_ok(b, pre) && pre.is_prefix_of(pre) && w == word_of(b, pre) && accepted(t, w));
    }
    assert(found_from(b, t, pre) =~= base_words(b, t, pre));
}

/// The words of continuations whose first added cell the nested direction
/// scan has already handled: all rows of the neighbourhood before `dr`, and
/// on row `dr` the columns before `dc` (both counted from the cell one up
/// and one left of `loc`).
spec fn scanned_words(
    b: Seq<Seq<Seq<u8>>>,
    t: TrieNode,
    pre: Seq<(usize, usize)>,
    loc: (usize, usize),
    dr: int,
    dc: int,
) -> Set<Seq<u8>> {
    Set::new(
        |w: Seq<u8>|
            exists|q: (usize, usize)|
                adjacent(loc, q) && in_bounds(b, q) && (q.0 + 1 < loc.0 + dr || (q.0 + 1 == loc.0
                    + dr && q.1 + 1 < loc.1 + dc)) && #[trigger] found_from(
                    b,
                    t,
                    pre.push(q),
                ).contains(w),
    )
}

/// Before the scan starts nothing is covered.
proof fn lemma_scanned_start(
    b: Seq<Seq<Seq<u8>>>,
    t: TrieNode,
    pre: Seq<(usize, usize)>,
    loc: (usize, usize),
)
    ensures
        scanned_words(b, t, pre, loc, 0, 0) == Set::<Seq<u8>>::empty(),
{
    assert forall|w: Seq<u8>| !scanned_words(b, t, pre, loc, 0, 0).contains(w) by {
        if scanned_words(b, t, pre, loc, 0, 0).contains(w) {
            let q = choose|q: (usize, usize)|
                adjacent(loc, q) && in_bounds(b, q) && (q.0 + 1 < loc.0 + 0 || (q.0 + 1 == loc.0
                    + 0 && q.1 + 1 < loc.1 + 0)) && #[trigger] found_from(
                    b,
                    t,
                    pre.push(q),
                ).contains(w);
            assert(loc.0 <= q.0 + 1 && loc.1 <= q.1 + 1);
        }
    }
    assert(scanned_words(b, t, pre, loc, 0, 0) =~= Set::<Seq<u8>>::empty());
}

/// Finishing the columns of one neighbourhood row covers that whole row.
proof fn lemma_scanned_row_done(
    b: Seq<Seq<Seq<u8>>>,
    t: TrieNode,
    pre: Seq<(usize, usize)>,
    loc: (usize, usize),
    dr: int,
)
    ensures
        scanned_words(b, t, pre, loc, dr, 3) == scanned_words(b, t, pre, loc, dr + 1, 0),
{
    assert forall|w: Seq<u8>|
        scanned_words(b, t, pre, loc, dr, 3).contains(w) == scanned_words(
            b,
            t,
            pre,
            loc,
            dr + 1,
            0,
        ).contains(w) by {
        if scanned_words(b, t, pre, loc, dr, 3).contains(w) {
            let q = choose|q: (usize, usize)|
                adjacent(loc, q) && in_bounds(b, q) && (q.0 + 1 < loc.0 + dr || (q.0 + 1 == loc.0
                    + dr && q.1 + 1 < loc.1 + 3)) && #[trigger] found_from(
                    b,
                    t,
                    pre.push(q),
                ).contains(w);
            assert(q.0 + 1 < loc.0 + (dr + 1) || (q.0 + 1 == loc.0 + (dr + 1) && q.1 + 1 < loc.1
                + 0));
            assert(scanned_words(b, t, pre, loc, dr + 1, 0).contains(w));
        }
        if scanned_words(b, t, pre, loc, dr + 1, 0).contains(w) {
            let q = choose|q: (usize, usize)|
                adjacent(loc, q) && in_bounds(b, q) && (q.0 + 1 < loc.0 + (dr + 1) || (q.0 + 1
                    == loc.0 + (dr + 1) && q.1 + 1 < loc.1 + 0)) && #[trigger] found_from(
                    b,
                    t,
                    pre.push(q),
                ).contains(w);
            assert(q.1 <= loc.1 + 1);
            assert(q.0 + 1 < loc.0 + dr || (q.0 + 1 == loc.0 + dr && q.1 + 1 < loc.1 + 3));
            assert(scanned_words(b, t, pre, loc, dr, 3).contains(w));
        }
    }
    assert(scanned_words(b, t, pre, loc, dr, 3) =~= scanned_words(b, t, pre, loc, dr + 1, 0));
}

/// Covering one more neighbourhood cell that really is a neighbour adds
/// exactly the words of the continuations through it.
proof fn lemma_scanned_step_hit(
    b: Seq<Seq<Seq<u8>>>,
    t: TrieNode,
    pre: Seq<(usize, usize)>,
    loc: (usize, usize),
    dr: int,
    dc: int,
    q0: (usize, usize),
)
    requires
        q0.0 + 1 == loc.0 + dr,
        q0.1 + 1 == loc.1 + dc,
        adjacent(loc, q0),
        in_bounds(b, q0),
    ensures
        scanned_words(b, t, pre, loc, dr, dc + 1) == scanned_words(b, t, pre, loc, dr, dc).union(
            found_from(b, t, pre.push(q0)),
        ),
{
    let lhs = scanned_words(b, t, pre, loc, dr, dc + 1);
    let rhs = scanned_words(b, t, pre, loc, dr, dc).union(found_from(b, t, pre.push(q0)));
    assert forall|w: Seq<u8>| lhs.contains(w) implies rhs.contains(w) by {
        let q = choose|q: (usize, usize)|
            adjacent(loc, q) && in_bounds(b, q) && (q.0 + 1 < loc.0 + dr || (q.0 + 1 == loc.0 + dr
                && q.1 + 1 < loc.1 + (dc + 1))) && #[trigger] found_from(
                b,
                t,
                pre.push(q),
            ).contains(w);
        if q.0 + 1 < loc.0 + dr || (q.0 + 1 == loc.0 + dr && q.1 + 1 < loc.1 + dc) {
            assert(scanned_words(b, t, pre, loc, dr, dc).contains(w));
        } else {
            assert(q.0 == q0.0 && q.1 == q0.1);
            assert(q == q0);
        }
    }
    assert forall|w: Seq<u8>| rhs.contains(w) implies lhs.contains(w) by {
        if scanned_words(b, t, pre, loc, dr, dc).contains(w) {
            let q = choose|q: (usize, usize)|
                adjacent(loc, q) && in_bounds(b, q) && (q.0 + 1 < loc.0 + dr || (q.0 + 1 == loc.0
                    + dr && q.1 + 1 < loc.1 + dc)) && #[trigger] found_from(
                    b,
                    t,
                    pre.push(q),
                ).contains(w);
            assert(q.0 + 1 < loc.0 + dr || (q.0 + 1 == loc.0 + dr && q.1 + 1 < loc.1 + (dc + 1)));
        } else {
            assert(found_from(b, t, pre.push(q0)).contains(w));
            assert(q0.0 + 1 == loc.0 + dr && q0.1 + 1 < loc.1 + (dc + 1));
        }
    }
    assert(lhs =~= rhs);
}

/// Covering a neighbourhood cell that is off the board, already the centre,
/// or outside the grid entirely adds nothing.
proof fn lemma_scanned_step_miss(
    b: Seq<Seq<Seq<u8>>>,
    t: TrieNode,
    pre: Seq<(usize, usize)>,
    loc: (usize, usize),
    dr: int,
    dc: int,
)
    requires
        forall|q: (usize, usize)|
            !(adjacent(loc, q) && in_bounds(b, q) && q.0 + 1 == loc.0 + dr && q.1 + 1 == loc.1
                + dc),
    ensures
        scanned_words(b, t, pre, loc, dr, dc + 1) == scanned_words(b, t, pre, loc, dr, dc),
{
    assert forall|w: Seq<u8>|
        scanned_words(b, t, pre, loc, dr, dc + 1).contains(w) == scanned_words(
            b,
            t,
            pre,
            loc,
            dr,
            dc,
        ).contains(w) by {
        if scanned_words(b, t, pre, loc, dr, dc + 1).contains(w) {
            let q = choose|q: (usize, usize)|
                adjacent(loc, q) && in_bounds(b, q) && (q.0 + 1 < loc.0 + dr || (q.0 + 1 == loc.0
                    + dr && q.1 + 1 < loc.1 + (dc + 1))) && #[trigger] found_from(
                    b,
                    t,
                    pre.push(q),
                ).contains(w);
            assert(!(q.0 + 1 == loc.0 + dr && q.1 + 1 == loc.1 + dc));
            assert(q.0 + 1 < loc.0 + dr || (q.0 + 1 == loc.0 + dr && q.1 + 1 < loc.1 + dc));
            assert(scanned_words(b, t, pre, loc, dr, dc).contains(w));
        }
        if scanned_words(b, t, pre, loc, dr, dc).contains(w) {
            let q = choose|q: (usize, usize)|
                adjacent(loc, q) && in_bounds(b, q) && (q.0 + 1 < loc.0 + dr || (q.0 + 1 == loc.0
                    + dr && q.1 + 1 < loc.1 + dc)) && #[trigger] found_from(
                    b,
                    t,
                    pre.push(q),
                ).contains(w);
            assert(q.0 + 1 < loc.0 + dr || (q.0 + 1 == loc.0 + dr && q.1 + 1 < loc.1 + (dc + 1)));
            assert(scanned_words(b, t, pre, loc, dr, dc + 1).contains(w));
        }
    }
    assert(scanned_words(b, t, pre, loc, dr, dc + 1) =~= scanned_words(b, t, pre, loc, dr, dc));
}

/// After the whole scan the covered words are exactly the neighbour words.
proof fn lemma_scanned_full(
    b: Seq<Seq<Seq<u8>>>,
    t: TrieNode,
    pre: Seq<(usize, usize)>,
    loc: (usize, usize),
)
    requires
        pre.len() >= 1,
        pre.last() == loc,
    ensures
        scanned_words(b, t, pre, loc, 3, 0) == neighbor_words(b, t, pre),
{
    assert forall|w: Seq<u8>|
        scanned_words(b, t, pre, loc, 3, 0).contains(w) == neighbor_words(b, t, pre).contains(
            w,
        ) by {
        if scanned_words(b, t, pre, loc, 3, 0).contains(w) {
            let q = choose|q: (usize, usize)|
                adjacent(loc, q) && in_bounds(b, q) && (q.0 + 1 < loc.0 + 3 || (q.0 + 1 == loc.0
                    + 3 && q.1 + 1 < loc.1 + 0)) && #[trigger] found_from(
                    b,
                    t,
                    pre.push(q),
                ).contains(w);
            assert(adjacent(pre.last(), q) && in_bounds(b, q) && found_from(
                b,
                t,
                pre.push(q),
            ).contains(w));
            assert(neighbor_words(b, t, pre).contains(w));
        }
        if neighbor_words(b, t, pre).contains(w) {
            let q = choose|q: (usize, usize)|
                adjacent(pre.last(), q) && in_bounds(b, q) && #[trigger] found_from(
                    b,
                    t,
                    pre.push(q),
                ).contains(w);
            assert(q.0 <= loc.0 + 1);
            assert(q.0 + 1 < loc.0 + 3);
            assert(scanned_words(b, t, pre, loc, 3, 0).contains(w));
        }
    }
    assert(scanned_words(b, t, pre, loc, 3, 0) =~= neighbor_words(b, t, pre));
}

/// Concatenating two word lists unions their sets.
proof fn lemma_to_set_concat(s1: Seq<Seq<u8>>, s2: Seq<Seq<u8>>)
    ensures
        (s1 + s2).to_set() == s1.to_set().union(s2.to_set()),
{
    assert forall|x: Seq<u8>| (s1 + s2).to_set().contains(x) implies s1.to_set().union(
        s2.to_set(),
    ).contains(x) by {
        let k = choose|k: int| 0 <= k < (s1 + s2).len() && (s1 + s2)[k] == x;
        if k < s1.len() {
            assert(s1[k] == x);
            assert(s1.contains(x));
        } else {
            assert(s2[k - s1.len()] == x);
            assert(s2.contains(x));
        }
    }
    assert forall|x: Seq<u8>| s1.to_set().union(s2.to_set()).contains(x) implies (s1
        + s2).to_set().contains(x) by {
        if s1.to_set().contains(x) {
            let k = choose|k: int| 0 <= k < s1.len() && s1[k] == x;
            assert((s1 + s2)[k] == x);
            assert((s1 + s2).contains(x));
        } else {
            let k = choose|k: int| 0 <= k < s2.len() && s2[k] == x;
            assert((s1 + s2)[s1.len() + k] == x);
            assert((s1 + s2).contains(x));
        }
    }
    assert((s1 + s2).to_set() =~= s1.to_set().union(s2.to_set()));
}

/// Appends the bytes of `src` to `dst`.
fn extend_word(dst: &mut Vec<u8>, src: &Vec<u8>)
    ensures
        final(dst)@ == old(dst)@ + src@,
{
    let mut i: usize = 0;
    while i < src.len()
        invariant
            i <= src@.len(),
            dst@ =~= old(dst)@ + src@.take(i as int),
        decreases src@.len() - i,
    {
        proof {
            assert(old(dst)@ + src@.take(i + 1) =~= (old(dst)@ + src@.take(i as int)).push(
                src@[i as int],
            ));
        }
        dst.push(src[i]);
        i = i + 1;
    }
    proof {
        assert(old(dst)@ + src@.take(src@.len() as int) =~= old(dst)@ + src@);
    }
}

/// Pushing one element onto a word list adds exactly it to the list's set.
proof fn lemma_to_set_push(s: Seq<Seq<u8>>, e: Seq<u8>)
    ensures
        s.push(e).to_set() == s.to_set().insert(e),
{
    assert forall|x: Seq<u8>| s.push(e).to_set().contains(x) implies s.to_set().insert(
        e,
    ).contains(x) by {
        let k = choose|k: int| 0 <= k < s.push(e).len() && s.push(e)[k] == x;
        if k < s.len() {
            assert(s[k] == x);
            assert(s.contains(x));
        }
    }
    assert forall|x: Seq<u8>| s.to_set().insert(e).contains(x) implies s.push(e).to_set().contains(
        x,
    ) by {
        if x == e {
            assert(s.push(e)[s.len() as int] == x);
            assert(s.push(e).contains(x));
        } else {
            let k = choose|k: int| 0 <= k < s.len() && s[k] == x;
            assert(s.push(e)[k] == x);
            assert(s.push(e).contains(x));
        }
    }
    assert(s.push(e).to_set() =~= s.to_set().insert(e));
}

/// One exploration step: records the word the current path spells when the
/// dictionary accepts it, stops when the dictionary cannot extend it, and
/// otherwise recurses into every adjacent, in-bounds, unvisited cell.  The
/// returned list holds exactly the accepted words of all legal paths that
/// continue the current one; the visited path is handed back as it came.
#[verifier::loop_isolation(false)]
pub fn solve_recursive(
    board: &Vec<Vec<Vec<u8>>>,
    location: (usize, usize),
    word_so_far: &Vec<u8>,
    visited_so_far: &mut Vec<(usize, usize)>,
    root: &TrieNode,
) -> (words_found: Vec<Vec<u8>>)
    requires
        root.wf(),
        board_ok(board.deep_view()),
        path_ok(board.deep_view(), old(visited_so_far)@),
        old(visited_so_far)@.len() >= 1,
        old(visited_so_far)@.last() == location,
        word_so_far@ == word_of(board.deep_view(), old(visited_so_far)@),
    ensures
        final(visited_so_far)@ == old(visited_so_far)@,
        words_found.deep_view().to_set() == found_from(
            board.deep_view(),
            *root,
            old(visited_so_far)@,
        ),
    decreases board.deep_view().len() * cols(board.deep_view()) - visited_so_far@.len(),
{
    let ghost b = board.deep_view();
    let ghost pre = old(visited_so_far)@;
    proof {
        lemma_board_views(board);
        lemma_word_of_letters(b, pre);
        assert(in_bounds(b, location)) by {
            assert(pre[pre.len() - 1] == location);
        }
    }
    let mut words_found: Vec<Vec<u8>> = Vec::new();
    proof {
        lemma_words_views(&words_found);
        assert(words_found.deep_view() =~= Seq::<Seq<u8>>::empty());
    }
    add_word(&mut words_found, word_so_far, root);
    proof {
        lemma_words_views(&words_found);
        if accepted(*root, word_so_far@) {
            assert forall|x: Seq<u8>|
                words_found.deep_view().to_set().contains(x) == base_words(b, *root, pre).contains(
                    x,
                ) by {
                assert(words_found.deep_view() == Seq::<Seq<u8>>::empty().push(word_so_far@));
                if words_found.deep_view().contains(x) {
                    let k = choose|k: int|
                        0 <= k < words_found.deep_view().len() && words_found.deep_view()[k] == x;
                    assert(x == word_so_far@);
                }
                if x == word_so_far@ {
                    assert(words_found.deep_view()[0] == x);
                    assert(words_found.deep_view().contains(x));
                }
            }
        } else {
            assert forall|x: Seq<u8>| !words_found.deep_view().to_set().contains(x) by {
                if words_found.deep_view().contains(x) {
                    let k = choose|k: int|
                        0 <= k < words_found.deep_view().len() && words_found.deep_view()[k] == x;
                }
            }
        }
        assert(words_found.deep_view().to_set() =~= base_words(b, *root, pre));
    }
    if crate::trie::is_leaf(root, word_so_far) {
        proof {
            lemma_pruned_found(b, *root, pre);
        }
        return words_found;
    }
    let mut dr: usize = 0;
    proof {
        lemma_scanned_start(b, *root, pre, location);
        assert(words_found.deep_view().to_set() =~= base_words(b, *root, pre).union(
            scanned_words(b, *root, pre, location, 0, 0),
        ));
    }
    while dr < 3
        invariant
            dr <= 3,
            b == board.deep_view(),
            root.wf(),
            board_ok(b),
            path_ok(b, pre),
            pre.len() >= 1,
            pre.last() == location,
            in_bounds(b, location),
            word_so_far@ == word_of(b, pre),
            visited_so_far@ == pre,
            words_found.deep_view().to_set() == base_words(b, *root, pre).union(
                scanned_words(b, *root, pre, location, dr as int, 0),
            ),
        decreases 3 - dr,
    {
        let mut dc: usize = 0;
        while dc < 3
            invariant
                dr < 3,
                dc <= 3,
                b == board.deep_view(),
                root.wf(),
                board_ok(b),
                path_ok(b, pre),
                pre.len() >= 1,
                pre.last() == location,
                in_bounds(b, location),
                word_so_far@ == word_of(b, pre),
                visited_so_far@ == pre,
                words_found.deep_view().to_set() == base_words(b, *root, pre).union(
                    scanned_words(b, *root, pre, location, dr as int, dc as int),
                ),
            decreases 3 - dc,
        {
            if dr == 1 && dc == 1 {
                proof {
                    assert forall|q: (usize, usize)|
                        !(adjacent(location, q) && in_bounds(b, q) && q.0 + 1 == location.0
                            + dr && q.1 + 1 == location.1 + dc) by {
                        if q.0 + 1 == location.0 + 1 && q.1 + 1 == location.1 + 1 {
                            assert(q.0 == location.0 && q.1 == location.1);
                        }
                    }
                    lemma_scanned_step_miss(b, *root, pre, location, dr as int, dc as int);
                }
            } else if dr == 0 && location.0 == 0 {
                proof {
                    assert forall|q: (usize, usize)|
                        !(adjacent(location, q) && in_bounds(b, q) && q.0 + 1 == location.0
                            + dr && q.1 + 1 == location.1 + dc) by {
                        assert(q.0 + 1 >= 1);
                    }
                    lemma_scanned_step_miss(b, *root, pre, location, dr as int, dc as int);
                }
            } else if dc == 0 && location.1 == 0 {
                proof {
                    assert forall|q: (usize, usize)|
                        !(adjacent(location, q) && in_bounds(b, q) && q.0 + 1 == location.0
                            + dr && q.1 + 1 == location.1 + dc) by {
                        assert(q.1 + 1 >= 1);
                    }
                    lemma_scanned_step_miss(b, *root, pre, location, dr as int, dc as int);
                }
            } else {
                let nrows: usize = board.len();
                let ncols_here: usize = board[location.0].len();
                proof {
                    assert(nrows == b.len());
                    assert(location.0 < nrows);
                    assert(ncols_here == b[location.0 as int].len());
                    assert(location.1 < ncols_here);
                }
                let r2: usize = if dr == 0 {
                    location.0 - 1
                } else if dr == 1 {
                    location.0
                } else {
                    location.0 + 1
                };
                let c2: usize = if dc == 0 {
                    location.1 - 1
                } else if dc == 1 {
                    location.1
                } else {
                    location.1 + 1
                };
                let q = (r2, c2);
                proof {
                    assert(q.0 + 1 == location.0 + dr);
                    assert(q.1 + 1 == location.1 + dc);
                    assert(adjacent(location, q));
                }
                if valid_recurse(q, visited_so_far, board) {
                    let mut nw = copy_word(word_so_far);
                    extend_word(&mut nw, &board[r2][c2]);
                    visited_so_far.push(q);
                    proof {
                        assert(visited_so_far@ == pre.push(q));
                        assert(path_ok(b, pre.push(q))) by {
                            let p2 = pre.push(q);
                            assert forall|i: int| 0 <= i < p2.len() implies in_bounds(
                                b,
                                #[trigger] p2[i],
                            ) by {
                                if i < pre.len() {
                                    assert(p2[i] == pre[i]);
                                }
                            }
                            assert forall|i: int| 0 <= i < p2.len() - 1 implies adjacent(
                                #[trigger] p2[i],
                                p2[i + 1],
                            ) by {
                                if i < pre.len() - 1 {
                                    assert(p2[i] == pre[i] && p2[i + 1] == pre[i + 1]);
                                } else {
                                    assert(p2[i] == pre.last() && p2[i + 1] == q);
                                }
                            }
                            assert forall|i: int, j: int| 0 <= i < j < p2.len() implies p2[i]
                                != p2[j] by {
                                if j < pre.len() {
                                    assert(p2[i] == pre[i] && p2[j] == pre[j]);
                                } else {
                                    assert(p2[i] == pre[i] && p2[j] == q);
                                    if pre[i] == q {
                                        assert(pre.contains(q));
                                    }
                                }
                            }
                        }
                        assert(word_of(b, pre.push(q)) == nw@) by {
                            assert(pre.push(q).drop_last() =~= pre);
                            assert(pre.push(q).last() == q);
                            assert(tile_at(b, q) == board@[r2 as int]@[c2 as int]@);
                            assert(nw@ == word_of(b, pre) + tile_at(b, q));
                        }
                        lemma_path_len_bound(b, pre.push(q));
                        assert(pre.push(q).len() == pre.len() + 1);
                        assert(0 <= b.len() * cols(b) - pre.push(q).len());
                        assert(b.len() * cols(b) - pre.push(q).len() < b.len() * cols(b)
                            - pre.len());
                    }
                    let mut sub = solve_recursive(board, q, &nw, visited_so_far, root);
                    let ghost sub_dv = sub.deep_view();
                    proof {
                        assert(visited_so_far@ == pre.push(q));
                    }
                    let popped = visited_so_far.pop();
                    proof {
                        assert(popped is Some);
                        assert(visited_so_far@ =~= pre);
                    }
                    let ghost acc_dv = words_found.deep_view();
                    words_found.append(&mut sub);
                    proof {
                        lemma_words_views(&words_found);
                        assert(words_found.deep_view() =~= acc_dv + sub_dv) by {
                            assert(words_found@.len() == acc_dv.len() + sub_dv.len());
                            assert forall|k: int|
                                0 <= k < words_found@.len() implies #[trigger] words_found.deep_view()[k]
                                == (acc_dv + sub_dv)[k] by {
                                assert(words_found.deep_view()[k] == words_found@[k]@);
                            }
                        }
                        lemma_to_set_concat(acc_dv, sub_dv);
                        lemma_scanned_step_hit(
                            b,
                            *root,
                            pre,
                            location,
                            dr as int,
                            dc as int,
                            q,
                        );
                        assert(words_found.deep_view().to_set() =~= base_words(
                            b,
                            *root,
                            pre,
                        ).union(scanned_words(b, *root, pre, location, dr as int, dc + 1)));
                    }
                } else {
                    proof {
                        if in_bounds(b, q) {
                            assert(pre.contains(q));
                            lemma_visited_empty(b, *root, pre, q);
                            lemma_scanned_step_hit(
                                b,
                                *root,
                                pre,
                                location,
                                dr as int,
                                dc as int,
                                q,
                            );
                            assert(scanned_words(b, *root, pre, location, dr as int, dc + 1)
                                =~= scanned_words(b, *root, pre, location, dr as int, dc as int));
                        } else {
                            assert forall|q2: (usize, usize)|
                                !(adjacent(location, q2) && in_bounds(b, q2) && q2.0 + 1
                                    == location.0 + dr && q2.1 + 1 == location.1 + dc) by {
                                if q2.0 + 1 == location.0 + dr && q2.1 + 1 == location.1 + dc {
                                    assert(q2 == q);
                                }
                            }
                            lemma_scanned_step_miss(b, *root, pre, location, dr as int, dc as int);
                        }
                    }
                }
            }
            dc = dc + 1;
        }
        proof {
            lemma_scanned_row_done(b, *root, pre, location, dr as int);
        }
        dr = dr + 1;
    }
    proof {
        lemma_scanned_full(b, *root, pre, location);
        lemma_found_decomposition(b, *root, pre);
        assert(words_found.deep_view().to_set() =~= found_from(b, *root, pre));
    }
    words_found
}

/// One whole exploration: walks every path that starts at `(row, col)` and
/// returns the accepted words, duplicates across paths allowed.
pub fn solve_thread(
    letters: &Vec<Vec<Vec<u8>>>,
    row: usize,
    col: usize,
    root: &TrieNode,
) -> (words: Vec<Vec<u8>>)
    requires
        root.wf(),
        board_ok(letters.deep_view()),
        in_bounds(letters.deep_view(), (row, col)),
    ensures
        words.deep_view().to_set() == found_from(letters.deep_view(), *root, seq![(row, col)]),
{
    let ghost b = letters.deep_view();
    proof {
        lemma_board_views(letters);
    }
    let location = (row, col);
    let word = copy_word(&letters[row][col]);
    let mut visited: Vec<(usize, usize)> = Vec::new();
    visited.push(location);
    proof {
        assert(visited@ =~= seq![location]);
        let p1 = seq![location];
        assert(p1[0] == location);
        assert(path_ok(b, p1));
        assert(p1.last() == location);
        assert(word_of(b, p1) == word@) by {
            assert(p1.drop_last() =~= Seq::<(usize, usize)>::empty());
            assert(word_of(b, p1.drop_last()) == Seq::<u8>::empty());
            assert(tile_at(b, location) == letters@[row as int]@[col as int]@);
            assert(Seq::<u8>::empty() + tile_at(b, location) =~= tile_at(b, location));
        }
    }
    solve_recursive(letters, location, &word, &mut visited, root)
}

/// Why a board cannot be solved.
#[derive(Debug, PartialEq, Eq, Structural, Clone, Copy)]
pub enum BoardError {
    /// Some row is longer or shorter than the first.
    NonRectangular,
    /// Some tile is empty or holds a byte that is not a lower-case letter.
    InvalidTile,
}

/// Checks the board before any search: every row as long as the first, and
/// every tile a non-empty run of lower-case letters.
pub fn check_board(letters: &Vec<Vec<Vec<u8>>>) -> (r: Result<(), BoardError>)
    ensures
        match r {
            Ok(_) => board_ok(letters.deep_view()),
            Err(BoardError::NonRectangular) => !rectangular(letters.deep_view()),
            Err(BoardError::InvalidTile) => rectangular(letters.deep_view()) && !tiles_ok(
                letters.deep_view(),
            ),
        },
{
    let ghost b = letters.deep_view();
    proof {
        lemma_board_views(letters);
    }
    if letters.len() == 0 {
        return Ok(());
    }
    let ncols = letters[0].len();
    proof {
        assert(ncols == b[0].len());
    }
    let mut i: usize = 0;
    while i < letters.len()
        invariant
            i <= letters@.len(),
            b == letters.deep_view(),
            b.len() == letters@.len(),
            b.len() > 0,
            ncols == b[0].len(),
            forall|k: int| 0 <= k < letters@.len() ==> (#[trigger] b[k]).len() == letters@[k]@.len(),
            forall|k: int| 0 <= k < i ==> (#[trigger] b[k]).len() == b[0].len(),
        decreases letters@.len() - i,
    {
        if letters[i].len() != ncols {
            proof {
                assert(b[i as int].len() != b[0].len());
            }
            return Err(BoardError::NonRectangular);
        }
        i = i + 1;
    }
    proof {
        assert(rectangular(b));
    }
    let mut i2: usize = 0;
    while i2 < letters.len()
        invariant
            i2 <= letters@.len(),
            b == letters.deep_view(),
            b.len() == letters@.len(),
            rectangular(b),
            forall|k: int| 0 <= k < letters@.len() ==> (#[trigger] b[k]).len() == letters@[k]@.len(),
            forall|k: int, l: int|
                0 <= k < i2 && 0 <= l < b[k].len() ==> valid_word(#[trigger] b[k][l]),
        decreases letters@.len() - i2,
    {
        let row_len = letters[i2].len();
        let mut j: usize = 0;
        while j < row_len
            invariant
                i2 < letters@.len(),
                j <= row_len,
                b == letters.deep_view(),
                b.len() == letters@.len(),
                rectangular(b),
                row_len == b[i2 as int].len(),
                forall|k: int|
                    0 <= k < letters@.len() ==> (#[trigger] b[k]).len() == letters@[k]@.len(),
                forall|k: int, l: int|
                    0 <= k < i2 && 0 <= l < b[k].len() ==> valid_word(#[trigger] b[k][l]),
                forall|l: int| 0 <= l < j ==> valid_word(#[trigger] b[i2 as int][l]),
            decreases row_len - j,
        {
            if !crate::trie::is_valid_word(&letters[i2][j]) {
                proof {
                    assert(b[i2 as int][j as int] == letters@[i2 as int]@[j as int]@);
                    assert(!valid_word(b[i2 as int][j as int]));
                    assert(!tiles_ok(b));
                }
                return Err(BoardError::InvalidTile);
            }
            proof {
                assert(b[i2 as int][j as int] == letters@[i2 as int]@[j as int]@);
            }
            j = j + 1;
        }
        i2 = i2 + 1;
    }
    proof {
        assert(tiles_ok(b));
    }
    Ok(())
}

/// The words of the explorations already launched by the coordinator: every
/// start cell in a row before `row`, and on `row` the columns before `col`.
spec fn partial_solution(
    b: Seq<Seq<Seq<u8>>>,
    t: TrieNode,
    row: int,
    col: int,
) -> Set<Seq<u8>> {
    Set::new(
        |w: Seq<u8>|
            exists|r: usize, c: usize|
                in_bounds(b, (r, c)) && ((r as int) < row || (r as int == row && (c as int) < col))
                    && #[trigger] found_from(b, t, seq![(r, c)]).contains(w),
    )
}

/// No exploration launched yet, nothing found yet.
proof fn lemma_partial_start(b: Seq<Seq<Seq<u8>>>, t: TrieNode)
    ensures
        partial_solution(b, t, 0, 0) == Set::<Seq<u8>>::empty(),
{
    assert(partial_solution(b, t, 0, 0) =~= Set::<Seq<u8>>::empty());
}

/// Launching the exploration of one more start cell adds exactly its words.
proof fn lemma_partial_step(b: Seq<Seq<Seq<u8>>>, t: TrieNode, row: usize, col: usize)
    requires
        in_bounds(b, (row, col)),
    ensures
        partial_solution(b, t, row as int, col + 1) == partial_solution(
            b,
            t,
            row as int,
            col as int,
        ).union(found_from(b, t, seq![(row, col)])),
{
    let lhs = partial_solution(b, t, row as int, col + 1);
    let rhs = partial_solution(b, t, row as int, col as int).union(
        found_from(b, t, seq![(row, col)]),
    );
    assert forall|w: Seq<u8>| lhs.contains(w) implies rhs.contains(w) by {
        let (r, c) = choose|r: usize, c: usize|
            in_bounds(b, (r, c)) && ((r as int) < row || (r as int == row as int && (c as int) < col
                + 1)) && #[trigger] found_from(b, t, seq![(r, c)]).contains(w);
        if (r as int) < row || (r as int == row as int && (c as int) < col as int) {
            assert(partial_solution(b, t, row as int, col as int).contains(w));
        } else {
            assert(r == row && c == col);
        }
    }
    assert forall|w: Seq<u8>| rhs.contains(w) implies lhs.contains(w) by {
        if partial_solution(b, t, row as int, col as int).contains(w) {
            let (r, c) = choose|r: usize, c: usize|
                in_bounds(b, (r, c)) && ((r as int) < row || (r as int == row as int && (c as int)
                    < col)) && #[trigger] found_from(b, t, seq![(r, c)]).contains(w);
            assert((r as int) < row || (r as int == row as int && (c as int) < col + 1));
        } else {
            assert(found_from(b, t, seq![(row, col)]).contains(w));
        }
    }
    assert(lhs =~= rhs);
}

/// Finishing a row of start cells moves the frontier to the next row.
proof fn lemma_partial_row_done(b: Seq<Seq<Seq<u8>>>, t: TrieNode, row: usize, ncols: int)
    requires
        rectangular(b),
        (row as int) < b.len(),
        ncols == b[row as int].len(),
    ensures
        partial_solution(b, t, row as int, ncols) == partial_solution(b, t, row + 1, 0),
{
    assert forall|w: Seq<u8>|
        partial_solution(b, t, row as int, ncols).contains(w) == partial_solution(
            b,
            t,
            row + 1,
            0,
        ).contains(w) by {
        if partial_solution(b, t, row as int, ncols).contains(w) {
            let (r, c) = choose|r: usize, c: usize|
                in_bounds(b, (r, c)) && ((r as int) < row || (r as int == row as int && (c as int)
                    < ncols)) && #[trigger] found_from(b, t, seq![(r, c)]).contains(w);
            assert((r as int) < row + 1 || (r as int == row + 1 && (c as int) < 0));
            assert(partial_solution(b, t, row + 1, 0).contains(w));
        }
        if partial_solution(b, t, row + 1, 0).contains(w) {
            let (r, c) = choose|r: usize, c: usize|
                in_bounds(b, (r, c)) && ((r as int) < row + 1 || (r as int == row + 1 && (c as int)
                    < 0)) && #[trigger] found_from(b, t, seq![(r, c)]).contains(w);
            if r as int == row as int {
                assert(c < b[r as int].len());
            }
            assert((r as int) < row || (r as int == row as int && (c as int) < ncols));
            assert(partial_solution(b, t, row as int, ncols).contains(w));
        }
    }
    assert(partial_solution(b, t, row as int, ncols) =~= partial_solution(b, t, row + 1, 0));
}

/// After every start cell is explored, the frontier holds the whole solution.
proof fn lemma_partial_full(b: Seq<Seq<Seq<u8>>>, t: TrieNode)
    ensures
        partial_solution(b, t, b.len() as int, 0) == solution(b, t),
{
    assert forall|w: Seq<u8>|
        partial_solution(b, t, b.len() as int, 0).contains(w) == solution(b, t).contains(w) by {
        if partial_solution(b, t, b.len() as int, 0).contains(w) {
            let (r, c) = choose|r: usize, c: usize|
                in_bounds(b, (r, c)) && ((r as int) < b.len() || (r as int == b.len() && (c as int)
                    < 0)) && #[trigger] found_from(b, t, seq![(r, c)]).contains(w);
            let p = choose|p: Seq<(usize, usize)>|
                #[trigger] path_ok(b, p) && seq![(r, c)].is_prefix_of(p) && w == word_of(b, p)
                    && accepted(t, w);
            assert(solution(b, t).contains(w));
        }
        if solution(b, t).contains(w) {
            let p = choose|p: Seq<(usize, usize)>|
                #[trigger] path_ok(b, p) && p.len() >= 1 && w == word_of(b, p) && accepted(t, w);
            let r = p[0].0;
            let c = p[0].1;
            assert(in_bounds(b, p[0]));
            assert(seq![(r, c)].is_prefix_of(p)) by {
                assert(seq![(r, c)] =~= p.subrange(0, 1));
            }
            assert(found_from(b, t, seq![(r, c)]).contains(w));
            assert(partial_solution(b, t, b.len() as int, 0).contains(w));
        }
    }
    assert(partial_solution(b, t, b.len() as int, 0) =~= solution(b, t));
}

/// The whole solve: checks the board, explores every start cell, and merges
/// all findings into one duplicate-free list that holds exactly the accepted
/// words of all legal paths.  A malformed board is rejected before any
/// search, with the reason.
#[verifier::loop_isolation(false)]
pub fn solve(letters: &Vec<Vec<Vec<u8>>>, root: &TrieNode) -> (r: Result<Vec<Vec<u8>>, BoardError>)
    requires
        root.wf(),
    ensures
        match r {
            Ok(words) => {
                &&& board_ok(letters.deep_view())
                &&& no_dups(words.deep_view())
                &&& words.deep_view().to_set() == solution(letters.deep_view(), *root)
            },
            Err(BoardError::NonRectangular) => !rectangular(letters.deep_view()),
            Err(BoardError::InvalidTile) => rectangular(letters.deep_view()) && !tiles_ok(
                letters.deep_view(),
            ),
        },
{
    let ghost b = letters.deep_view();
    proof {
        lemma_board_views(letters);
    }
    match check_board(letters) {
        Err(e) => {
            return Err(e);
        },
        Ok(_) => {},
    }
    let mut results: Vec<Vec<u8>> = Vec::new();
    proof {
        lemma_words_views(&results);
        lemma_partial_start(b, *root);
        assert(results.deep_view() =~= Seq::<Seq<u8>>::empty());
        assert forall|x: Seq<u8>| !results.deep_view().to_set().contains(x) by {
            if results.deep_view().contains(x) {
                let k = choose|k: int|
                    0 <= k < results.deep_view().len() && results.deep_view()[k] == x;
            }
        }
        assert(results.deep_view().to_set() =~= partial_solution(b, *root, 0, 0));
    }
    let mut row: usize = 0;
    while row < letters.len()
        invariant
            row <= letters@.len(),
            no_dups(results.deep_view()),
            results.deep_view().to_set() == partial_solution(b, *root, row as int, 0),
        decreases letters@.len() - row,
    {
        let ncols = letters[row].len();
        proof {
            assert(ncols == b[row as int].len());
        }
        let mut col: usize = 0;
        while col < ncols
            invariant
                row < letters@.len(),
                col <= ncols,
                no_dups(results.deep_view()),
                results.deep_view().to_set() == partial_solution(b, *root, row as int, col as int),
            decreases ncols - col,
        {
            let found = solve_thread(letters, row, col, root);
            merge_words(&mut results, &found);
            proof {
                lemma_partial_step(b, *root, row, col);
                assert(results.deep_view().to_set() =~= partial_solution(
                    b,
                    *root,
                    row as int,
                    col + 1,
                ));
            }
            col = col + 1;
        }
        proof {
            lemma_partial_row_done(b, *root, row, ncols as int);
        }
        row = row + 1;
    }
    proof {
        lemma_partial_full(b, *root);
    }
    Ok(results)
}

/// The result of a solve is a function of the board and the dictionary
/// alone: two solves of the same inputs find the same set of words, whatever
/// the order either run explored or merged in.
pub proof fn lemma_solve_deterministic(
    ws1: Seq<Seq<u8>>,
    ws2: Seq<Seq<u8>>,
    b: Seq<Seq<Seq<u8>>>,
    t: TrieNode,
)
    requires
        ws1.to_set() == solution(b, t),
        ws2.to_set() == solution(b, t),
    ensures
        ws1.to_set() == ws2.to_set(),
{
}

/// A board with no rows holds no paths, so nothing is found.
pub proof fn lemma_empty_board(b: Seq<Seq<Seq<u8>>>, t: TrieNode)
    requires
        b.len() == 0,
    ensures
        solution(b, t) == Set::<Seq<u8>>::empty(),
{
    assert forall|w: Seq<u8>| !solution(b, t).contains(w) by {
        if solution(b, t).contains(w) {
            let p = choose|p: Seq<(usize, usize)>|
                #[trigger] path_ok(b, p) && p.len() >= 1 && w == word_of(b, p) && accepted(t, w);
            assert(in_bounds(b, p[0]));
        }
    }
    assert(solution(b, t) =~= Set::<Seq<u8>>::empty());
}

/// A dictionary that holds no word yields nothing on any board.
pub proof fn lemma_empty_dictionary(b: Seq<Seq<Seq<u8>>>, t: TrieNode)
    requires
        forall|w: Seq<u8>| !t.contains_word(w),
    ensures
        solution(b, t) == Set::<Seq<u8>>::empty(),
{
    assert forall|w: Seq<u8>| !solution(b, t).contains(w) by {
        if solution(b, t).contains(w) {
            let p = choose|p: Seq<(usize, usize)>|
                #[trigger] path_ok(b, p) && p.len() >= 1 && w == word_of(b, p) && accepted(t, w);
        }
    }
    assert(solution(b, t) =~= Set::<Seq<u8>>::empty());
}


/// Pruning correctness at the exploration level: with every dictionary word
/// at most `bound` letters long and the dictionary free of dead branches,
/// an exploration whose path is already `bound` cells deep can find nothing
/// but the word it has spelled so far — each cell adds at least one letter,
/// so the word so far is already a leaf of the dictionary and the explorer
/// stops rather than descend further.
pub proof fn lemma_pruning_stops_deep_paths(
    b: Seq<Seq<Seq<u8>>>,
    t: TrieNode,
    pre: Seq<(usize, usize)>,
    bound: int,
)
    requires
        board_ok(b),
        path_ok(b, pre),
        pre.len() >= 1,
        t.wf(),
        t.productive(),
        forall|w: Seq<u8>| t.contains_word(w) ==> w.len() <= bound,
        pre.len() >= bound,
    ensures
        forall|w: Seq<u8>| found_from(b, t, pre).contains(w) ==> w == word_of(b, pre),
{
    assert(Seq::<(usize, usize)>::empty().is_prefix_of(pre)) by {
        assert(Seq::<(usize, usize)>::empty() =~= pre.subrange(0, 0));
    }
    lemma_word_of_extension(b, Seq::<(usize, usize)>::empty(), pre);
    assert(word_of(b, pre).len() >= pre.len());
    t.lemma_short_words_prune(word_of(b, pre), bound);
    lemma_pruned_found(b, t, pre);
    assert forall|w: Seq<u8>| found_from(b, t, pre).contains(w) implies w == word_of(b, pre) by {
        assert(base_words(b, t, pre).contains(w));
    }
}

/// Every word found is long enough, stands in the dictionary, and is spelled
/// by some legal path of adjacent, non-repeating cells.
pub proof fn lemma_solution_word_valid(b: Seq<Seq<Seq<u8>>>, t: TrieNode, w: Seq<u8>)
    requires
        solution(b, t).contains(w),
    ensures
        w.len() > 2,
        t.contains_word(w),
        exists|p: Seq<(usize, usize)>|
            #[trigger] path_ok(b, p) && p.len() >= 1 && w == word_of(b, p),
{
    let p = choose|p: Seq<(usize, usize)>|
        #[trigger] path_ok(b, p) && p.len() >= 1 && w == word_of(b, p) && accepted(t, w);
    assert(path_ok(b, p) && p.len() >= 1 && w == word_of(b, p));
}

} // verus!
