//! The repetition counter: a character trie that counts how often each line
//! text has been inserted.

use std::collections::HashMap;
use vstd::prelude::*;

verus! {

/// How often each line text has been inserted. The table is total: a text that
/// was never inserted is counted zero times.
pub type Counts = Map<Seq<char>, nat>;

/// The table in which nothing has been counted.
pub open spec fn no_lines() -> Counts {
    Map::total(|line: Seq<char>| 0nat)
}

/// The table after one more insertion of `line`.
pub open spec fn bump(counts: Counts, line: Seq<char>) -> Counts {
    counts.insert(line, counts[line] + 1)
}

/// The table after `times` more insertions of `line`.
pub open spec fn bump_times(counts: Counts, line: Seq<char>, times: nat) -> Counts
    decreases times,
{
    if times == 0 {
        counts
    } else {
        bump(bump_times(counts, line, (times - 1) as nat), line)
    }
}

/// A node of the character trie: one child per next character of a line, and
/// the number of times the line that ends here has been inserted.
pub struct TrieNode {
    children: HashMap<u32, TrieNode>,
    occurrence: usize,
}

impl View for TrieNode {
    type V = Counts;

    /// The trie read as a flat table from line text to count.
    open spec fn view(&self) -> Counts {
        Map::total(|line: Seq<char>| self.count(line))
    }
}

impl TrieNode {
    /// How often `word` has been inserted below this node: the counter of the
    /// node that the characters of `word` lead to, zero where they lead nowhere.
    pub closed spec fn count(&self, word: Seq<char>) -> nat
        decreases word.len(),
    {
        if word.len() == 0 {
            self.occurrence as nat
        } else if self.children@.contains_key(word[0] as u32) {
            self.children@[word[0] as u32].count(word.drop_first())
        } else {
            0
        }
    }

    /// The node reached from `self` over the edge `c`, where a missing edge
    /// stands for `fresh`.
    spec fn below(&self, c: char, fresh: TrieNode) -> TrieNode {
        if self.children@.contains_key(c as u32) {
            self.children@[c as u32]
        } else {
            fresh
        }
    }

    /// Two characters with one code point are one character.
    proof fn lemma_key_injective(a: char, b: char)
        ensures
            a as u32 == b as u32 ==> a == b,
    {
    }

    /// Going down the edge `c` reads the counts of the words that go on with `c`.
    proof fn lemma_descend(root: TrieNode, at: TrieNode, fresh: TrieNode, p: Seq<char>, c: char)
        requires
            forall|w: Seq<char>| #[trigger] at.count(w) == root.count(p + w),
            forall|w: Seq<char>| #[trigger] fresh.count(w) == 0,
        ensures
            forall|w: Seq<char>| #[trigger] at.below(c, fresh).count(w) == root.count(p.push(c) + w),
    {
        assert forall|w: Seq<char>| #[trigger] at.below(c, fresh).count(w) == root.count(
            p.push(c) + w,
        ) by {
            let cw = seq![c] + w;
            assert(p.push(c) + w =~= p + cw);
            assert(cw.drop_first() =~= w);
            assert(at.count(cw) == root.count(p + cw));
        }
    }

    /// Replacing the node below the edge `c` changes the counts of the words
    /// that go on with `c`, and no others.
    proof fn lemma_graft(
        root: TrieNode,
        fin_root: TrieNode,
        at: TrieNode,
        fin_at: TrieNode,
        fin_below: TrieNode,
        p: Seq<char>,
        c: char,
    )
        requires
            forall|w: Seq<char>| #[trigger] at.count(w) == root.count(p + w),
            forall|w: Seq<char>| #[trigger]
                fin_root.count(w) == if p.is_prefix_of(w) {
                    fin_at.count(w.skip(p.len() as int))
                } else {
                    root.count(w)
                },
            fin_at.occurrence == at.occurrence,
            fin_at.children@ == at.children@.insert(c as u32, fin_below),
        ensures
            forall|w: Seq<char>| #[trigger]
                fin_root.count(w) == if p.push(c).is_prefix_of(w) {
                    fin_below.count(w.skip(p.len() as int + 1))
                } else {
                    root.count(w)
                },
    {
        let n = p.len() as int;
        assert forall|w: Seq<char>| #[trigger]
            fin_root.count(w) == if p.push(c).is_prefix_of(w) {
                fin_below.count(w.skip(n + 1))
            } else {
                root.count(w)
            } by {
            if p.is_prefix_of(w) {
                let u = w.skip(n);
                assert(p + u =~= w);
                assert(at.count(u) == root.count(p + u));
                if p.push(c).is_prefix_of(w) {
                    assert(w.subrange(0, n + 1)[n] == p.push(c)[n]);
                    assert(u.drop_first() =~= w.skip(n + 1));
                } else if u.len() > 0 {
                    Self::lemma_key_injective(u[0], c);
                }
            } else if p.push(c).is_prefix_of(w) {
                assert(p =~= w.subrange(0, n));
            }
        }
    }

    /// A trie in which nothing has been counted.
    pub fn new() -> (node: TrieNode)
        ensures
            node@ == no_lines(),
    {
        let node = TrieNode { children: HashMap::new(), occurrence: 0 };
        assert forall|word: Seq<char>| node.count(word) == 0 by {}
        node
    }

    /// Counts `word` once more and returns how often it has been inserted now.
    /// The path of `word` is created as far as it is missing. No other text's
    /// count changes, whether it is a prefix of `word`, goes on after it, or
    /// neither.
    pub fn insert(&mut self, word: &str) -> (n: usize)
        requires
            old(self)@[word@] < usize::MAX,
        ensures
            final(self)@ == bump(old(self)@, word@),
            n == final(self)@[word@],
    {
        broadcast use vstd::std_specs::hash::group_hash_axioms;

        let mut node = self;
        assert forall|w: Seq<char>| #[trigger] node.count(w) == old(self).count(word@.take(0) + w) by {
            assert(word@.take(0) + w =~= w);
        }
        assert forall|w: Seq<char>| #[trigger]
            final(self).count(w) == final(node).count(w.skip(0)) by {
            assert(w.skip(0) =~= w);
        }
        for c in it: word.chars()
            invariant
                it.seq() == word@,
                forall|w: Seq<char>| #[trigger]
                    node.count(w) == old(self).count(word@.take(it.index()) + w),
                forall|w: Seq<char>| #[trigger]
                    final(self).count(w) == if word@.take(it.index()).is_prefix_of(w) {
                        final(node).count(w.skip(it.index()))
                    } else {
                        old(self).count(w)
                    },
        {
            let ghost i = it.index();
            let ghost at = *node;
            let ghost fin_at = *final(node);
            let fresh = TrieNode::new();
            let ghost blank = fresh;
            let next_node = node.children.entry(c as u32).or_insert(fresh);
            proof {
                assert(*next_node == at.below(c, blank));
                assert(word@.take(i + 1) =~= word@.take(i).push(c));
                assert forall|w: Seq<char>| #[trigger] blank.count(w) == 0 by {
                    assert(blank@[w] == 0);
                }
                Self::lemma_descend(*old(self), at, blank, word@.take(i), c);
                Self::lemma_graft(
                    *old(self),
                    *final(self),
                    at,
                    fin_at,
                    *final(next_node),
                    word@.take(i),
                    c,
                );
            }
            node = next_node;
        }
        proof {
            assert(word@.take(word@.len() as int) =~= word@);
            assert(node.count(Seq::<char>::empty()) == old(self).count(
                word@ + Seq::<char>::empty(),
            ));
        }
        let ghost at = *node;
        node.occurrence += 1;
        proof {
            assert forall|other: Seq<char>| other != word@ implies final(self).count(other) == old(
                self,
            ).count(other) by {
                if word@.is_prefix_of(other) {
                    let u = other.skip(word@.len() as int);
                    assert(word@ + u =~= other);
                    assert(at.count(u) == old(self).count(word@ + u));
                }
            }
        }
        node.occurrence
    }
}

/// The repetition counter of one run over a set of files: a trie of line
/// texts, and the number of insertions made so far. The index only grows.
pub struct RepetitionIndex {
    root: TrieNode,
    total: usize,
}

impl View for RepetitionIndex {
    type V = Counts;

    open spec fn view(&self) -> Counts {
        Map::total(|line: Seq<char>| self.count(line))
    }
}

impl RepetitionIndex {
    /// No text has been counted more often than insertions were made. Every
    /// index that this module hands out is well formed.
    pub closed spec fn wf(&self) -> bool {
        forall|line: Seq<char>| #[trigger] self.root.count(line) <= self.total
    }

    /// How often `line` has been inserted.
    pub closed spec fn count(&self, line: Seq<char>) -> nat {
        self.root.count(line)
    }

    /// The number of insertions made so far.
    pub closed spec fn total(&self) -> nat {
        self.total as nat
    }

    /// An index in which nothing has been counted.
    pub fn new() -> (index: RepetitionIndex)
        ensures
            index.wf(),
            index@ == no_lines(),
            index.total() == 0,
    {
        let index = RepetitionIndex { root: TrieNode::new(), total: 0 };
        assert forall|line: Seq<char>| #[trigger] index.root.count(line) == 0 by {
            assert(index.root@[line] == 0);
        }
        index
    }

    /// The number of insertions made so far.
    pub fn len(&self) -> (n: usize)
        ensures
            n == self.total(),
    {
        self.total
    }

    /// Counts `line` once more and returns how often it has been inserted now:
    /// 1 for a text not seen before. No other text's count changes.
    pub fn insert(&mut self, line: &str) -> (n: usize)
        requires
            old(self).wf(),
            old(self).total() < usize::MAX,
        ensures
            final(self).wf(),
            final(self)@ == bump(old(self)@, line@),
            final(self).total() == old(self).total() + 1,
            n == final(self)@[line@],
    {
        self.total = self.total + 1;
        let n = self.root.insert(line);
        proof {
            assert forall|other: Seq<char>| #[trigger]
                self.root.count(other) == bump(old(self)@, line@)[other] by {
                assert(self.root@[other] == bump(old(self).root@, line@)[other]);
            }
        }
        n
    }

    /// No text has been counted more often than insertions were made.
    pub proof fn lemma_count_within_total(&self, line: Seq<char>)
        requires
            self.wf(),
        ensures
            self@[line] <= self.total(),
    {
    }
}

/// Counting up: where a text has been inserted `before` times into an index
/// in which nothing had been counted, and no other text has, the next
/// insertion of that text returns `before + 1`, as `insert` returns the count
/// that the text has in the table afterwards. So `times` insertions in a row
/// return 1, 2, and so on up to `times`, in that order.
pub proof fn lemma_repeated_insertions_count_up(line: Seq<char>, times: nat)
    ensures
        forall|before: nat|
            bump(#[trigger] bump_times(no_lines(), line, before), line)[line] == before + 1,
        forall|k: nat| 1 <= k <= times ==> (#[trigger] bump_times(no_lines(), line, k))[line] == k,
{
    assert forall|before: nat|
        bump(#[trigger] bump_times(no_lines(), line, before), line)[line] == before + 1 by {
        lemma_bump_times(no_lines(), line, before);
    }
    assert forall|k: nat| 1 <= k <= times implies (#[trigger] bump_times(no_lines(), line, k))[line]
        == k by {
        lemma_bump_times(no_lines(), line, k);
    }
}

/// `times` insertions of `line` raise its count by `times` and change no other count.
pub proof fn lemma_bump_times(counts: Counts, line: Seq<char>, times: nat)
    requires
        counts.dom().contains(line),
    ensures
        bump_times(counts, line, times) == counts.insert(line, counts[line] + times),
    decreases times,
{
    if times == 0 {
    } else {
        lemma_bump_times(counts, line, (times - 1) as nat);
    }
}

/// Two different texts are counted apart, also where one is a prefix of the
/// other: after one insertion of each, in either order, each has count 1.
pub proof fn lemma_texts_counted_apart(a: Seq<char>, b: Seq<char>)
    requires
        a != b,
    ensures
        bump(bump(no_lines(), a), b)[a] == 1,
        bump(bump(no_lines(), a), b)[b] == 1,
        bump(bump(no_lines(), b), a)[a] == 1,
        bump(bump(no_lines(), b), a)[b] == 1,
{
}

} // verus!
