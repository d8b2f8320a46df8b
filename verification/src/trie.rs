//! The dictionary: a prefix tree over the lower-case letters `a`..`z`.
//!
//! Each node has one child slot per letter; a node marked `is_end_of_word`
//! says that the path from the root to it spells a complete dictionary word.

use vstd::prelude::*;

verus! {

/// Number of child slots per node, one per lower-case letter.
pub const ALPHABET_SIZE: usize = 26;

/// The byte value of `a`, the first letter of the alphabet.
pub const LOWER_A: u8 = 97;

/// The byte value of `z`, the last letter of the alphabet.
pub const LOWER_Z: u8 = 122;

/// `b` is one of the 26 lower-case letters the dictionary alphabet allows.
pub open spec fn is_letter(b: u8) -> bool {
    LOWER_A <= b && b <= LOWER_Z
}

/// The child slot that letter `b` selects, counted from `a`.
pub open spec fn child_index(b: u8) -> int {
    b - LOWER_A
}

/// Every byte of `w` is a lower-case letter.
pub open spec fn all_letters(w: Seq<u8>) -> bool {
    forall|i: int| 0 <= i < w.len() ==> is_letter(#[trigger] w[i])
}

/// The byte value of `A`, the first upper-case letter.
pub const UPPER_A: u8 = 65;

/// The byte value of `Z`, the last upper-case letter.
pub const UPPER_Z: u8 = 90;

/// `b` with an upper-case letter turned lower-case; any other byte unchanged.
pub open spec fn lower_byte(b: u8) -> u8 {
    if UPPER_A <= b && b <= UPPER_Z {
        (b + 32) as u8
    } else {
        b
    }
}

/// `w` with every upper-case letter turned lower-case.
pub open spec fn lower_seq(w: Seq<u8>) -> Seq<u8> {
    w.map_values(|b: u8| lower_byte(b))
}

/// A line that may enter the dictionary: non-empty, all lower-case letters.
pub open spec fn valid_word(w: Seq<u8>) -> bool {
    w.len() > 0 && all_letters(w)
}

/// The set of words that a list of raw lines spells once lower-cased.
pub open spec fn dictionary_of(ls: Seq<Seq<u8>>) -> Set<Seq<u8>> {
    Set::new(|w: Seq<u8>| exists|i: int| 0 <= i < ls.len() && lower_seq(#[trigger] ls[i]) == w)
}

/// Why a list of lines cannot build a dictionary.
#[derive(Debug, PartialEq, Eq, Structural, Clone, Copy)]
pub enum DictionaryError {
    /// Some line, once lower-cased, is empty or holds a byte that is not a
    /// lower-case letter.
    InvalidWord,
}

/// One node of the prefix tree.
#[derive(Debug)]
pub struct TrieNode {
    pub children: Vec<Option<Box<TrieNode>>>,
    pub is_end_of_word: bool,
}

impl TrieNode {
    /// Structural invariant: every node has exactly one child slot per letter.
    pub open spec fn wf(self) -> bool
        decreases self,
    {
        &&& self.children@.len() == ALPHABET_SIZE
        &&& forall|i: int| 0 <= i < self.children@.len() ==> match #[trigger] self.children@[i] {
                Some(c) => c.wf(),
                None => true,
            }
    }

    /// The node spells `w` as a complete word: walking one child per letter of
    /// `w` from this node ends at a node marked as the end of a word.
    pub open spec fn contains_word(self, w: Seq<u8>) -> bool
        decreases w.len(),
    {
        if w.len() == 0 {
            self.is_end_of_word
        } else if !is_letter(w[0]) {
            false
        } else {
            match self.children@[child_index(w[0])] {
                Some(c) => c.contains_word(w.drop_first()),
                None => false,
            }
        }
    }

    /// No child slot of this node is occupied.
    pub open spec fn no_children(self) -> bool {
        forall|i: int| 0 <= i < self.children@.len() ==> (#[trigger] self.children@[i]) is None
    }

    /// Walking `w` from this node either falls off the tree or ends at a node
    /// with no children: no word strictly extending `w` can be in the tree.
    pub open spec fn leaf_along(self, w: Seq<u8>) -> bool
        decreases w.len(),
    {
        if w.len() == 0 {
            self.no_children()
        } else if !is_letter(w[0]) {
            true
        } else {
            match self.children@[child_index(w[0])] {
                Some(c) => c.leaf_along(w.drop_first()),
                None => true,
            }
        }
    }

    /// Some complete word ends at this node or below it.
    pub open spec fn has_word(self) -> bool
        decreases self,
    {
        self.is_end_of_word || exists|i: int|
            0 <= i < self.children@.len() && (#[trigger] self.children@[i]) is Some
                && self.children@[i]->Some_0.has_word()
    }

    /// Every occupied child slot leads to at least one complete word: the
    /// tree carries no dead branches.  A tree grown only by `insert` stays
    /// this way.
    pub open spec fn productive(self) -> bool
        decreases self,
    {
        forall|i: int| 0 <= i < self.children@.len() ==> match #[trigger] self.children@[i] {
            Some(c) => c.has_word() && c.productive(),
            None => true,
        }
    }

    /// A fresh node: no children, not the end of any word.
    pub fn new() -> (t: TrieNode)
        ensures
            t.wf(),
            !t.is_end_of_word,
            t.no_children(),
            t.productive(),
            forall|w: Seq<u8>| !t.contains_word(w),
    {
        let mut children: Vec<Option<Box<TrieNode>>> = Vec::new();
        let mut i: usize = 0;
        while i < ALPHABET_SIZE
            invariant
                i <= ALPHABET_SIZE,
                children@.len() == i,
                forall|j: int| 0 <= j < i ==> (#[trigger] children@[j]) is None,
            decreases ALPHABET_SIZE - i,
        {
            children.push(None);
            i = i + 1;
        }
        let t = TrieNode { children, is_end_of_word: false };
        proof {
            assert(t.productive());
            assert forall|w: Seq<u8>| !t.contains_word(w) by {
                if w.len() > 0 && is_letter(w[0]) {
                    assert(t.children@[child_index(w[0])] is None);
                }
            }
        }
        t
    }
}

/// A fresh boxed node, as `TrieNode::new` makes it.
pub fn get_node() -> (t: Box<TrieNode>)
    ensures
        t.wf(),
        !t.is_end_of_word,
        t.no_children(),
        t.productive(),
        forall|w: Seq<u8>| !t.contains_word(w),
{
    Box::new(TrieNode::new())
}

/// Walks one child per letter of `key` past position `d`, creating the
/// children that are missing, and marks the final node as the end of a word.
fn insert_at(node: &mut TrieNode, key: &Vec<u8>, d: usize)
    requires
        old(node).wf(),
        all_letters(key@),
        d <= key@.len(),
    ensures
        final(node).wf(),
        old(node).productive() ==> final(node).productive(),
        forall|w: Seq<u8>|
            final(node).contains_word(w) <==> (old(node).contains_word(w) || w == key@.skip(
                d as int,
            )),
    decreases key@.len() - d,
{
    if d == key.len() {
        node.is_end_of_word = true;
        proof {
            assert(key@.skip(d as int) =~= Seq::<u8>::empty());
            assert forall|w: Seq<u8>|
                node.contains_word(w) <==> (old(node).contains_word(w) || w == key@.skip(
                    d as int,
                )) by {
                if w.len() == 0 {
                    assert(w =~= Seq::<u8>::empty());
                    assert(node.contains_word(w) == node.is_end_of_word);
                } else {
                    assert(w != key@.skip(d as int));
                    assert(node.children@ == old(node).children@);
                }
            }
            if old(node).productive() {
                assert forall|j: int| 0 <= j < node.children@.len() implies match #[trigger] node.children@[j] {
                    Some(cc) => cc.has_word() && cc.productive(),
                    None => true,
                } by {
                    assert(node.children@[j] == old(node).children@[j]);
                }
            }
        }
    } else {
        proof {
            assert(is_letter(key@[d as int]));
        }
        let c: u8 = key[d];
        let i: usize = (c - LOWER_A) as usize;
        let ghost before = *old(node);
        let created: bool = node.children[i].is_none();
        if created {
            node.children[i] = Some(get_node());
        }
        let ghost mid = *node;
        let ghost sub0 = mid.children@[i as int]->Some_0;
        proof {
            assert(mid.children@[i as int] is Some);
            assert(sub0.wf());
            assert(mid.wf());
            if created {
                assert(forall|w: Seq<u8>| !sub0.contains_word(w));
            } else {
                assert(mid == before);
            }
        }
        let child: &mut Option<Box<TrieNode>> = &mut node.children[i];
        match child {
            Some(sub) => {
                insert_at(&mut **sub, key, d + 1);
            },
            None => {
                proof {
                    assert(false);
                }
            },
        }
        proof {
            let fin = *node;
            let subf = fin.children@[i as int]->Some_0;
            assert(fin.children@ =~= mid.children@.update(i as int, fin.children@[i as int]));
            assert(fin.is_end_of_word == before.is_end_of_word);
            assert(subf.wf());
            assert(forall|w2: Seq<u8>|
                subf.contains_word(w2) <==> (sub0.contains_word(w2) || w2 == key@.skip(
                    d + 1,
                )));
            assert forall|j: int| 0 <= j < fin.children@.len() implies match #[trigger] fin.children@[j] {
                Some(cc) => cc.wf(),
                None => true,
            } by {
                if j != i as int {
                    assert(fin.children@[j] == before.children@[j]);
                }
            }
            assert(fin.wf());
            if before.productive() {
                if created {
                    assert(sub0.no_children());
                    assert(sub0.productive());
                } else {
                    assert(before.children@[i as int] is Some);
                    assert(sub0.productive());
                }
                assert(subf.productive());
                assert(subf.contains_word(key@.skip(d + 1)));
                subf.lemma_contains_has_word(key@.skip(d + 1));
                assert forall|j: int| 0 <= j < fin.children@.len() implies match #[trigger] fin.children@[j] {
                    Some(cc) => cc.has_word() && cc.productive(),
                    None => true,
                } by {
                    if j != i as int {
                        assert(fin.children@[j] == before.children@[j]);
                    } else {
                        assert(fin.children@[j]->Some_0 == subf);
                    }
                }
                assert(fin.productive());
            }
            let tail = key@.skip(d as int);
            assert(tail.len() == key@.len() - d);
            assert(tail[0] == key@[d as int]);
            assert(tail.drop_first() =~= key@.skip(d + 1));
            assert forall|w: Seq<u8>|
                fin.contains_word(w) <==> (before.contains_word(w) || w == tail) by {
                if w.len() == 0 {
                    assert(w != tail);
                } else if !is_letter(w[0]) {
                    assert(w[0] != tail[0]);
                    assert(w != tail);
                } else {
                    let j = child_index(w[0]);
                    if j != i as int {
                        assert(fin.children@[j] == before.children@[j]);
                        assert(fin.contains_word(w) == before.contains_word(w));
                        assert(w[0] != tail[0]);
                        assert(w != tail);
                    } else {
                        assert(w[0] == key@[d as int]);
                        assert(fin.children@[j] == fin.children@[i as int]);
                        assert(fin.contains_word(w) == subf.contains_word(w.drop_first()));
                        if created {
                            assert(before.children@[j] is None);
                            assert(!before.contains_word(w));
                            assert(!sub0.contains_word(w.drop_first()));
                        } else {
                            assert(before.contains_word(w) == sub0.contains_word(
                                w.drop_first(),
                            ));
                        }
                        if w.drop_first() == key@.skip(d + 1) {
                            assert forall|k: int| 1 <= k < w.len() implies w[k] == tail[k] by {
                                assert(w.drop_first()[k - 1] == w[k]);
                                assert(key@.skip(d + 1)[k - 1] == key@[d + 1 + k - 1]);
                                assert(tail[k] == key@[d + k]);
                            }
                            assert(w =~= tail);
                        }
                        if w == tail {
                            assert(w.drop_first() == tail.drop_first());
                        }
                    }
                }
            }
        }
    }
}

/// Adds `key` to the dictionary rooted at `root`; every word already present
/// stays present, and nothing else appears.
pub fn insert(root: &mut TrieNode, key: &Vec<u8>)
    requires
        old(root).wf(),
        all_letters(key@),
        key@.len() > 0,
    ensures
        final(root).wf(),
        old(root).productive() ==> final(root).productive(),
        forall|w: Seq<u8>| final(root).contains_word(w) <==> (old(root).contains_word(w) || w == key@),
{
    proof {
        assert(key@.skip(0) =~= key@);
    }
    insert_at(root, key, 0);
}

/// Walks one child per letter of `key` past position `d` and reports whether
/// the walk ends at a node marked as the end of a word.
fn search_at(node: &TrieNode, key: &Vec<u8>, d: usize) -> (r: bool)
    requires
        node.wf(),
        all_letters(key@),
        d <= key@.len(),
    ensures
        r == node.contains_word(key@.skip(d as int)),
    decreases key@.len() - d,
{
    proof {
        let tail = key@.skip(d as int);
        assert(tail.len() == key@.len() - d);
        if d < key@.len() {
            assert(is_letter(key@[d as int]));
            assert(tail[0] == key@[d as int]);
            assert(tail.drop_first() =~= key@.skip(d + 1));
        }
    }
    if d == key.len() {
        node.is_end_of_word
    } else {
        let c: u8 = key[d];
        let i: usize = (c - LOWER_A) as usize;
        match &node.children[i] {
            Some(sub) => search_at(&**sub, key, d + 1),
            None => false,
        }
    }
}

/// Exact membership: `key` was inserted as a complete word.
pub fn search(root: &TrieNode, key: &Vec<u8>) -> (r: bool)
    requires
        root.wf(),
        all_letters(key@),
    ensures
        r == root.contains_word(key@),
{
    proof {
        assert(key@.skip(0) =~= key@);
    }
    search_at(root, key, 0)
}

/// Reports whether `node` has no children at all.
fn has_no_child(node: &TrieNode) -> (r: bool)
    requires
        node.wf(),
    ensures
        r == node.no_children(),
{
    let mut i: usize = 0;
    while i < ALPHABET_SIZE
        invariant
            i <= ALPHABET_SIZE,
            node.wf(),
            forall|j: int| 0 <= j < i ==> (#[trigger] node.children@[j]) is None,
        decreases ALPHABET_SIZE - i,
    {
        if node.children[i].is_some() {
            return false;
        }
        i = i + 1;
    }
    true
}

/// Walks one child per letter of `key` past position `d`; reports whether the
/// walk falls off the tree or ends at a node with no children.
fn is_leaf_at(node: &TrieNode, key: &Vec<u8>, d: usize) -> (r: bool)
    requires
        node.wf(),
        all_letters(key@),
        d <= key@.len(),
    ensures
        r == node.leaf_along(key@.skip(d as int)),
    decreases key@.len() - d,
{
    proof {
        let tail = key@.skip(d as int);
        assert(tail.len() == key@.len() - d);
        if d < key@.len() {
            assert(is_letter(key@[d as int]));
            assert(tail[0] == key@[d as int]);
            assert(tail.drop_first() =~= key@.skip(d + 1));
        }
    }
    if d == key.len() {
        has_no_child(node)
    } else {
        let c: u8 = key[d];
        let i: usize = (c - LOWER_A) as usize;
        match &node.children[i] {
            Some(sub) => is_leaf_at(&**sub, key, d + 1),
            None => true,
        }
    }
}

/// Pruning query: walking `key` either falls off the tree or ends at a node
/// with no children, so no word strictly extending `key` is in the dictionary.
pub fn is_leaf(root: &TrieNode, key: &Vec<u8>) -> (r: bool)
    requires
        root.wf(),
        all_letters(key@),
    ensures
        r == root.leaf_along(key@),
{
    proof {
        assert(key@.skip(0) =~= key@);
    }
    is_leaf_at(root, key, 0)
}

impl TrieNode {
    /// No word that strictly extends a pruned prefix is in the dictionary:
    /// once `leaf_along` holds for the word built so far, longer words need
    /// not be looked for.
    pub proof fn lemma_leaf_no_extension(self, w: Seq<u8>, x: Seq<u8>)
        requires
            self.wf(),
            self.leaf_along(w),
            w.is_prefix_of(x),
            x.len() > w.len(),
        ensures
            !self.contains_word(x),
        decreases w.len(),
    {
        if w.len() == 0 {
            if is_letter(x[0]) {
                assert(self.children@[child_index(x[0])] is None);
            }
        } else {
            assert(x[0] == w[0]);
            if is_letter(w[0]) {
                match self.children@[child_index(w[0])] {
                    Some(c) => {
                        assert(w.drop_first().is_prefix_of(x.drop_first())) by {
                            assert(w.drop_first() =~= x.drop_first().take(w.len() - 1));
                        }
                        c.lemma_leaf_no_extension(w.drop_first(), x.drop_first());
                    },
                    None => {},
                }
            }
        }
    }

    /// A word contained below a node witnesses `has_word` for that node.
    proof fn lemma_contains_has_word(self, w: Seq<u8>)
        requires
            self.wf(),
            self.contains_word(w),
        ensures
            self.has_word(),
        decreases w.len(),
    {
        if w.len() == 0 {
        } else {
            let i = child_index(w[0]);
            match self.children@[i] {
                Some(c) => {
                    c.lemma_contains_has_word(w.drop_first());
                    assert(0 <= i < self.children@.len() && self.children@[i] is Some
                        && self.children@[i]->Some_0.has_word());
                },
                None => {},
            }
        }
    }

    /// A node with `has_word` really holds a complete word below it.
    proof fn lemma_has_word_gives_word(self)
        requires
            self.wf(),
            self.has_word(),
        ensures
            exists|w: Seq<u8>| self.contains_word(w),
        decreases self,
    {
        if self.is_end_of_word {
            assert(self.contains_word(Seq::<u8>::empty()));
        } else {
            let i = choose|i: int|
                0 <= i < self.children@.len() && (#[trigger] self.children@[i]) is Some
                    && self.children@[i]->Some_0.has_word();
            let c = self.children@[i]->Some_0;
            c.lemma_has_word_gives_word();
            let w2 = choose|w2: Seq<u8>| c.contains_word(w2);
            let b = (LOWER_A + i) as u8;
            let w = seq![b] + w2;
            assert(is_letter(b));
            assert(child_index(b) == i);
            assert(w.drop_first() =~= w2);
            assert(self.contains_word(w));
        }
    }

    /// A prefix that is not pruned leads to some strictly longer word in a
    /// tree without dead branches.
    proof fn lemma_not_leaf_gives_longer_word(self, p: Seq<u8>)
        requires
            self.wf(),
            self.productive(),
            !self.leaf_along(p),
        ensures
            exists|w: Seq<u8>| self.contains_word(w) && w.len() > p.len(),
        decreases p.len(),
    {
        if p.len() == 0 {
            let i = choose|i: int|
                0 <= i < self.children@.len() && !((#[trigger] self.children@[i]) is None);
            let c = self.children@[i]->Some_0;
            assert(c.has_word() && c.wf());
            c.lemma_has_word_gives_word();
            let w2 = choose|w2: Seq<u8>| c.contains_word(w2);
            let b = (LOWER_A + i) as u8;
            let w = seq![b] + w2;
            assert(is_letter(b));
            assert(child_index(b) == i);
            assert(w.drop_first() =~= w2);
            assert(self.contains_word(w) && w.len() > 0);
        } else {
            let i = child_index(p[0]);
            match self.children@[i] {
                Some(c) => {
                    c.lemma_not_leaf_gives_longer_word(p.drop_first());
                    let w2 = choose|w2: Seq<u8>|
                        c.contains_word(w2) && w2.len() > p.drop_first().len();
                    let w = seq![p[0]] + w2;
                    assert(child_index(w[0]) == i);
                    assert(w.drop_first() =~= w2);
                    assert(self.contains_word(w) && w.len() > p.len());
                },
                None => {},
            }
        }
    }

    /// Pruning correctness: when no dictionary word is longer than `bound`
    /// letters, every prefix of at least `bound` letters is a leaf, so the
    /// exploration of such a prefix stops at once.
    pub proof fn lemma_short_words_prune(self, p: Seq<u8>, bound: int)
        requires
            self.wf(),
            self.productive(),
            forall|w: Seq<u8>| self.contains_word(w) ==> w.len() <= bound,
            p.len() >= bound,
        ensures
            self.leaf_along(p),
    {
        if !self.leaf_along(p) {
            self.lemma_not_leaf_gives_longer_word(p);
            let w = choose|w: Seq<u8>| self.contains_word(w) && w.len() > p.len();
            assert(w.len() <= bound);
        }
    }
}

/// The take-one-more step of building a dictionary line by line.
proof fn lemma_dictionary_take_step(ls: Seq<Seq<u8>>, i: int)
    requires
        0 <= i < ls.len(),
    ensures
        forall|w: Seq<u8>|
            dictionary_of(ls.take(i + 1)).contains(w) <==> (dictionary_of(
                ls.take(i),
            ).contains(w) || w == lower_seq(ls[i])),
{
    assert forall|w: Seq<u8>|
        dictionary_of(ls.take(i + 1)).contains(w) <==> (dictionary_of(ls.take(i)).contains(w)
            || w == lower_seq(ls[i])) by {
        if dictionary_of(ls.take(i + 1)).contains(w) {
            let j = choose|j: int|
                0 <= j < ls.take(i + 1).len() && lower_seq(#[trigger] ls.take(i + 1)[j]) == w;
            if j < i {
                assert(ls.take(i)[j] == ls.take(i + 1)[j]);
                assert(lower_seq(ls.take(i)[j]) == w);
                assert(dictionary_of(ls.take(i)).contains(w));
            } else {
                assert(ls.take(i + 1)[j] == ls[i]);
            }
        }
        if dictionary_of(ls.take(i)).contains(w) {
            let j = choose|j: int|
                0 <= j < ls.take(i).len() && lower_seq(#[trigger] ls.take(i)[j]) == w;
            assert(ls.take(i + 1)[j] == ls.take(i)[j]);
            assert(lower_seq(ls.take(i + 1)[j]) == w);
            assert(dictionary_of(ls.take(i + 1)).contains(w));
        }
        if w == lower_seq(ls[i]) {
            assert(ls.take(i + 1)[i] == ls[i]);
            assert(lower_seq(ls.take(i + 1)[i]) == w);
            assert(dictionary_of(ls.take(i + 1)).contains(w));
        }
    }
}


/// `word` with every upper-case letter turned lower-case.
pub fn lowercase(word: &Vec<u8>) -> (r: Vec<u8>)
    ensures
        r@ == lower_seq(word@),
{
    let mut r: Vec<u8> = Vec::new();
    let mut i: usize = 0;
    while i < word.len()
        invariant
            i <= word@.len(),
            r@.len() == i,
            forall|j: int| 0 <= j < i ==> r@[j] == lower_byte(#[trigger] word@[j]),
        decreases word@.len() - i,
    {
        let b: u8 = word[i];
        if UPPER_A <= b && b <= UPPER_Z {
            r.push(b + 32);
        } else {
            r.push(b);
        }
        i = i + 1;
    }
    proof {
        assert(r@ =~= lower_seq(word@));
    }
    r
}

/// Reports whether `word` may enter the dictionary: non-empty and made of
/// lower-case letters only.
pub fn is_valid_word(word: &Vec<u8>) -> (r: bool)
    ensures
        r == valid_word(word@),
{
    if word.len() == 0 {
        return false;
    }
    let mut i: usize = 0;
    while i < word.len()
        invariant
            i <= word@.len(),
            forall|j: int| 0 <= j < i ==> is_letter(#[trigger] word@[j]),
        decreases word@.len() - i,
    {
        let b: u8 = word[i];
        if b < LOWER_A || b > LOWER_Z {
            proof {
                assert(!is_letter(word@[i as int]));
            }
            return false;
        }
        i = i + 1;
    }
    true
}

/// Builds the dictionary from raw lines: each line is lower-cased, checked,
/// and inserted.  The tree then holds exactly the lower-cased lines; a line
/// that is empty or not purely alphabetic fails the whole build.
pub fn build_dictionary(lines: &Vec<Vec<u8>>) -> (r: Result<TrieNode, DictionaryError>)
    ensures
        match r {
            Ok(t) => {
                &&& t.wf()
                &&& t.productive()
                &&& forall|i: int|
                    0 <= i < lines@.len() ==> valid_word(lower_seq(#[trigger] lines@[i]@))
                &&& forall|w: Seq<u8>|
                    t.contains_word(w) <==> dictionary_of(lines.deep_view()).contains(w)
            },
            Err(DictionaryError::InvalidWord) => exists|i: int|
                0 <= i < lines@.len() && !valid_word(lower_seq(#[trigger] lines@[i]@)),
        },
{
    let ghost ls = lines.deep_view();
    proof {
        assert(ls.len() == lines@.len());
        assert(forall|i: int| 0 <= i < ls.len() ==> ls[i] == #[trigger] lines@[i]@);
    }
    let mut root = TrieNode::new();
    let mut i: usize = 0;
    while i < lines.len()
        invariant
            i <= ls.len(),
            ls == lines.deep_view(),
            ls.len() == lines@.len(),
            forall|j: int| 0 <= j < ls.len() ==> ls[j] == #[trigger] lines@[j]@,
            root.wf(),
            root.productive(),
            forall|j: int| 0 <= j < i ==> valid_word(lower_seq(#[trigger] ls[j])),
            forall|w: Seq<u8>| root.contains_word(w) <==> dictionary_of(ls.take(i as int)).contains(w),
        decreases ls.len() - i,
    {
        let lw = lowercase(&lines[i]);
        if !is_valid_word(&lw) {
            proof {
                assert(!valid_word(lower_seq(lines@[i as int]@)));
            }
            return Err(DictionaryError::InvalidWord);
        }
        let ghost pre = root;
        insert(&mut root, &lw);
        proof {
            lemma_dictionary_take_step(ls, i as int);
            assert forall|w: Seq<u8>|
                root.contains_word(w) <==> dictionary_of(ls.take(i + 1)).contains(w) by {
                assert(root.contains_word(w) <==> (pre.contains_word(w) || w == lw@));
            }
        }
        i = i + 1;
    }
    proof {
        assert(ls.take(ls.len() as int) =~= ls);
    }
    Ok(root)
}

} // verus!
