//! A ternary search trie over words. Each node carries one character and
//! up to three children: `esq` for a lexicographically smaller sibling at
//! the same word position, `dir` for a larger one, and `next` for the
//! following position. A payload at a node marks a word ending there.
//!
//! Every operation first normalises its word: lowercased, then trimmed of
//! surrounding whitespace. Lookups are therefore case-insensitive.

use vstd::prelude::*;

use crate::text::{chars_of, debug_text, norm_of, pre_process, push_char, string_from_chars};
use vstd::string::StringExecFns;

verus! {

pub struct TstNode<T> {
    esq: Option<Box<TstNode<T>>>,
    dir: Option<Box<TstNode<T>>>,
    next: Option<Box<TstNode<T>>>,
    content: Option<T>,
    c: char,
}

pub struct Tst<T> {
    root: TstNode<T>,
}

/// The value stored under a (normalised) word, following the descent that
/// `insert` and `get` use: match the node's character and step to `next`,
/// or move to the `esq`/`dir` sibling on a smaller/larger character.
pub closed spec fn node_lookup<T>(node: TstNode<T>, w: Seq<char>) -> Option<T>
    decreases node,
{
    if w.len() == 0 {
        None
    } else if w[0] == node.c {
        if w.len() == 1 {
            node.content
        } else {
            opt_lookup(node.next, w.drop_first())
        }
    } else if w[0] < node.c {
        opt_lookup(node.esq, w)
    } else {
        opt_lookup(node.dir, w)
    }
}

/// Lookup through an optional child: absent children hold nothing.
pub closed spec fn opt_lookup<T>(o: Option<Box<TstNode<T>>>, w: Seq<char>) -> Option<T>
    decreases o,
{
    match o {
        None => None,
        Some(b) => node_lookup(*b, w),
    }
}

/// Sibling ordering: every word reachable in the `esq` subtree starts
/// with a character smaller than this node's, every word in the `dir`
/// subtree with a larger one. This is what lets a prefix search discard
/// the siblings of a fully matched node.
pub closed spec fn node_wf<T>(node: TstNode<T>) -> bool
    decreases node,
{
    &&& opt_wf(node.esq)
    &&& opt_wf(node.dir)
    &&& opt_wf(node.next)
    &&& (forall|w: Seq<char>|
        #[trigger] opt_lookup(node.esq, w) is Some ==> w.len() > 0 && w[0] < node.c)
    &&& (forall|w: Seq<char>|
        #[trigger] opt_lookup(node.dir, w) is Some ==> w.len() > 0 && w[0] > node.c)
}

pub closed spec fn opt_wf<T>(o: Option<Box<TstNode<T>>>) -> bool
    decreases o,
{
    match o {
        None => true,
        Some(b) => node_wf(*b),
    }
}

/// The defining equations of `node_lookup` and `node_wf`, packaged so
/// that executable code can invoke them for the node values it handles.
proof fn lemma_unfold<T>(node: TstNode<T>)
    ensures
        forall|w: Seq<char>| #[trigger] node_lookup(node, w) == (if w.len() == 0 {
            Option::<T>::None
        } else if w[0] == node.c {
            if w.len() == 1 {
                node.content
            } else {
                opt_lookup(node.next, w.drop_first())
            }
        } else if w[0] < node.c {
            opt_lookup(node.esq, w)
        } else {
            opt_lookup(node.dir, w)
        }),
        node_wf(node) <==> (opt_wf(node.esq) && opt_wf(node.dir) && opt_wf(node.next) && (
        forall|w: Seq<char>|
            #[trigger] opt_lookup(node.esq, w) is Some ==> w.len() > 0 && w[0] < node.c) && (forall|w: Seq<char>|
            #[trigger] opt_lookup(node.dir, w) is Some ==> w.len() > 0 && w[0] > node.c)),
{
}

/// The defining equations of `opt_lookup` and `opt_wf`.
proof fn lemma_opt_unfold<T>(o: Option<Box<TstNode<T>>>)
    ensures
        forall|w: Seq<char>| #[trigger] opt_lookup(o, w) == (match o {
            None => Option::<T>::None,
            Some(b) => node_lookup(*b, w),
        }),
        opt_wf(o) <==> (match o {
            None => true,
            Some(b) => node_wf(*b),
        }),
{
}

/// A sequence of known length one is the singleton of its element.
proof fn lemma_singleton(s: Seq<char>, c: char)
    requires
        s.len() == 1,
        s[0] == c,
    ensures
        s == seq![c],
{
    assert(s =~= seq![c]);
}

/// Dropping the head of a suffix moves the suffix start one to the right.
proof fn lemma_skip_step(s: Seq<char>, i: int)
    requires
        0 <= i < s.len(),
    ensures
        s.skip(i).len() == s.len() - i,
        s.skip(i)[0] == s[i],
        s.skip(i).drop_first() == s.skip(i + 1),
    decreases s.len() - i,
{
    assert(s.skip(i).drop_first() =~= s.skip(i + 1));
}

/// A whole sequence is the suffix starting at its beginning.
proof fn lemma_skip_zero(s: Seq<char>)
    ensures
        s.skip(0) == s,
{
    assert(s.skip(0) =~= s);
}

/// Two sequences with equal heads and equal tails are equal.
proof fn lemma_cons_eq(a: Seq<char>, b: Seq<char>)
    requires
        a.len() > 0,
        b.len() > 0,
        a[0] == b[0],
        a.drop_first() == b.drop_first(),
    ensures
        a == b,
{
    assert(a.drop_first().len() == a.len() - 1);
    assert(b.drop_first().len() == b.len() - 1);
    assert(a.len() == b.len());
    assert forall|i: int| 0 <= i < a.len() implies a[i] == b[i] by {
        if i > 0 {
            assert(a[i] == a.drop_first()[i - 1]);
            assert(b[i] == b.drop_first()[i - 1]);
        }
    }
    assert(a =~= b);
}

/// A node with no children and no payload stores nothing.
proof fn lemma_empty_node<T>(n: TstNode<T>)
    requires
        n.esq is None,
        n.dir is None,
        n.next is None,
        n.content is None,
    ensures
        forall|w: Seq<char>| #[trigger] node_lookup(n, w) is None,
        node_wf(n),
{
}

/// A payload-only leaf stores exactly the one-character word of its own
/// character.
proof fn lemma_leaf_node<T>(n: TstNode<T>, v: T)
    requires
        n.esq is None,
        n.dir is None,
        n.next is None,
        n.content == Some(v),
    ensures
        forall|w: Seq<char>| #[trigger] node_lookup(n, w) == (if w == seq![n.c] {
            Some(v)
        } else {
            Option::<T>::None
        }),
        node_wf(n),
{
    assert forall|w: Seq<char>| #[trigger] node_lookup(n, w) == (if w == seq![n.c] {
        Some(v)
    } else {
        Option::<T>::None
    }) by {
        if w.len() == 1 && w[0] == n.c {
            lemma_singleton(w, n.c);
        }
    }
}

/// A link-only node prepends its character to everything its `next`
/// child stores.
#[verifier::rlimit(50)]
proof fn lemma_chain_node<T>(n: TstNode<T>, child: TstNode<T>, target: Seq<char>, v: T)
    requires
        n.esq is None,
        n.dir is None,
        n.content is None,
        n.next is Some,
        *n.next->0 == child,
        target.len() >= 2,
        target[0] == n.c,
        forall|w: Seq<char>| #[trigger] node_lookup(child, w) == (if w == target.drop_first() {
            Some(v)
        } else {
            Option::<T>::None
        }),
        node_wf(child),
    ensures
        forall|w: Seq<char>| #[trigger] node_lookup(n, w) == (if w == target {
            Some(v)
        } else {
            Option::<T>::None
        }),
        node_wf(n),
{
    assert forall|w: Seq<char>| #[trigger] node_lookup(n, w) == (if w == target {
        Some(v)
    } else {
        Option::<T>::None
    }) by {
        if w.len() == 0 {
            assert(w != target);
            assert(node_lookup(n, w) is None);
        } else if w[0] == n.c {
            if w.len() == 1 {
                assert(w != target);
                assert(node_lookup(n, w) == n.content);
            } else {
                assert(node_lookup(n, w) == opt_lookup(n.next, w.drop_first()));
                assert(opt_lookup(n.next, w.drop_first()) == node_lookup(child, w.drop_first()));
                if w == target {
                    assert(node_lookup(child, target.drop_first()) == Some(v));
                } else {
                    if w.drop_first() == target.drop_first() {
                        lemma_cons_eq(w, target);
                        assert(false);
                    }
                    assert(node_lookup(child, w.drop_first()) is None);
                }
            }
        } else if w[0] < n.c {
            assert(w != target);
            assert(node_lookup(n, w) == opt_lookup(n.esq, w));
            assert(opt_lookup(n.esq, w) is None);
        } else {
            assert(w != target);
            assert(node_lookup(n, w) == opt_lookup(n.dir, w));
            assert(opt_lookup(n.dir, w) is None);
        }
    }
    assert forall|w: Seq<char>| #[trigger] opt_lookup(n.esq, w) is Some implies false by {}
    assert forall|w: Seq<char>| #[trigger] opt_lookup(n.dir, w) is Some implies false by {}
}

/// Setting the payload changes only the one-character word of the node's
/// own character; sibling ordering is untouched.
proof fn lemma_set_content<T>(n1: TstNode<T>, n2: TstNode<T>, v: T)
    requires
        n2.esq == n1.esq,
        n2.dir == n1.dir,
        n2.next == n1.next,
        n2.c == n1.c,
        n2.content == Some(v),
        node_wf(n1),
    ensures
        forall|w: Seq<char>| #[trigger] node_lookup(n2, w) == (if w == seq![n1.c] {
            Some(v)
        } else {
            node_lookup(n1, w)
        }),
        node_wf(n2),
{
    assert forall|w: Seq<char>| #[trigger] node_lookup(n2, w) == (if w == seq![n1.c] {
        Some(v)
    } else {
        node_lookup(n1, w)
    }) by {
        if w.len() == 0 {
            assert(w != seq![n1.c]);
        } else if w[0] == n1.c {
            if w.len() == 1 {
                lemma_singleton(w, n1.c);
                assert(node_lookup(n2, w) == n2.content);
            } else {
                assert(w != seq![n1.c]);
                assert(node_lookup(n2, w) == opt_lookup(n2.next, w.drop_first()));
                assert(node_lookup(n1, w) == opt_lookup(n1.next, w.drop_first()));
            }
        } else if w[0] < n1.c {
            assert(w != seq![n1.c]);
            assert(node_lookup(n2, w) == opt_lookup(n2.esq, w));
            assert(node_lookup(n1, w) == opt_lookup(n1.esq, w));
        } else {
            assert(w != seq![n1.c]);
            assert(node_lookup(n2, w) == opt_lookup(n2.dir, w));
            assert(node_lookup(n1, w) == opt_lookup(n1.dir, w));
        }
    }
    assert forall|w: Seq<char>| #[trigger] opt_lookup(n2.esq, w) is Some implies w.len() > 0 && w[0]
        < n2.c by {
        assert(opt_lookup(n1.esq, w) is Some);
    }
    assert forall|w: Seq<char>| #[trigger] opt_lookup(n2.dir, w) is Some implies w.len() > 0 && w[0]
        > n2.c by {
        assert(opt_lookup(n1.dir, w) is Some);
    }
}

/// Replacing the `next` child rewrites exactly the words that continue
/// past this node's character.
#[verifier::rlimit(50)]
proof fn lemma_set_next<T>(n1: TstNode<T>, n2: TstNode<T>, target: Seq<char>, v: T)
    requires
        n2.esq == n1.esq,
        n2.dir == n1.dir,
        n2.content == n1.content,
        n2.c == n1.c,
        target.len() >= 2,
        target[0] == n1.c,
        forall|w: Seq<char>| #[trigger] opt_lookup(n2.next, w) == (if w == target.drop_first() {
            Some(v)
        } else {
            opt_lookup(n1.next, w)
        }),
        node_wf(n1),
        opt_wf(n2.next),
    ensures
        forall|w: Seq<char>| #[trigger] node_lookup(n2, w) == (if w == target {
            Some(v)
        } else {
            node_lookup(n1, w)
        }),
        node_wf(n2),
{
    assert forall|w: Seq<char>| #[trigger] node_lookup(n2, w) == (if w == target {
        Some(v)
    } else {
        node_lookup(n1, w)
    }) by {
        if w.len() == 0 {
            assert(w != target);
        } else if w[0] == n1.c {
            if w.len() == 1 {
                assert(w != target);
                assert(node_lookup(n2, w) == n2.content);
                assert(node_lookup(n1, w) == n1.content);
            } else {
                assert(node_lookup(n2, w) == opt_lookup(n2.next, w.drop_first()));
                assert(node_lookup(n1, w) == opt_lookup(n1.next, w.drop_first()));
                if w == target {
                    assert(opt_lookup(n2.next, target.drop_first()) == Some(v));
                } else {
                    if w.drop_first() == target.drop_first() {
                        lemma_cons_eq(w, target);
                        assert(false);
                    }
                    assert(opt_lookup(n2.next, w.drop_first()) == opt_lookup(
                        n1.next,
                        w.drop_first(),
                    ));
                }
            }
        } else if w[0] < n1.c {
            assert(w != target);
            assert(node_lookup(n2, w) == opt_lookup(n2.esq, w));
            assert(node_lookup(n1, w) == opt_lookup(n1.esq, w));
        } else {
            assert(w != target);
            assert(node_lookup(n2, w) == opt_lookup(n2.dir, w));
            assert(node_lookup(n1, w) == opt_lookup(n1.dir, w));
        }
    }
    assert forall|w: Seq<char>| #[trigger] opt_lookup(n2.esq, w) is Some implies w.len() > 0 && w[0]
        < n2.c by {
        assert(opt_lookup(n1.esq, w) is Some);
    }
    assert forall|w: Seq<char>| #[trigger] opt_lookup(n2.dir, w) is Some implies w.len() > 0 && w[0]
        > n2.c by {
        assert(opt_lookup(n1.dir, w) is Some);
    }
}

/// Replacing the `esq` child rewrites exactly the words routed to it:
/// those starting with a smaller character. Ordering is preserved when
/// the new subtree adds only such a word.
proof fn lemma_set_esq<T>(n1: TstNode<T>, n2: TstNode<T>, target: Seq<char>, v: T)
    requires
        n2.dir == n1.dir,
        n2.next == n1.next,
        n2.content == n1.content,
        n2.c == n1.c,
        target.len() > 0,
        target[0] < n1.c,
        forall|w: Seq<char>| #[trigger] opt_lookup(n2.esq, w) == (if w == target {
            Some(v)
        } else {
            opt_lookup(n1.esq, w)
        }),
        node_wf(n1),
        opt_wf(n2.esq),
    ensures
        forall|w: Seq<char>| #[trigger] node_lookup(n2, w) == (if w == target {
            Some(v)
        } else {
            node_lookup(n1, w)
        }),
        node_wf(n2),
{
    assert forall|w: Seq<char>| #[trigger] node_lookup(n2, w) == (if w == target {
        Some(v)
    } else {
        node_lookup(n1, w)
    }) by {
        if w.len() == 0 {
            assert(w != target);
        } else if w[0] == n1.c {
            assert(w != target);
            if w.len() == 1 {
                assert(node_lookup(n2, w) == n2.content);
                assert(node_lookup(n1, w) == n1.content);
            } else {
                assert(node_lookup(n2, w) == opt_lookup(n2.next, w.drop_first()));
                assert(node_lookup(n1, w) == opt_lookup(n1.next, w.drop_first()));
            }
        } else if w[0] < n1.c {
            assert(node_lookup(n2, w) == opt_lookup(n2.esq, w));
            assert(node_lookup(n1, w) == opt_lookup(n1.esq, w));
            if w == target {
                assert(opt_lookup(n2.esq, target) == Some(v));
            } else {
                assert(opt_lookup(n2.esq, w) == opt_lookup(n1.esq, w));
            }
        } else {
            assert(w != target);
            assert(node_lookup(n2, w) == opt_lookup(n2.dir, w));
            assert(node_lookup(n1, w) == opt_lookup(n1.dir, w));
        }
    }
    assert forall|w: Seq<char>| #[trigger] opt_lookup(n2.esq, w) is Some implies w.len() > 0 && w[0]
        < n2.c by {
        if w != target {
            assert(opt_lookup(n1.esq, w) is Some);
        }
    }
    assert forall|w: Seq<char>| #[trigger] opt_lookup(n2.dir, w) is Some implies w.len() > 0 && w[0]
        > n2.c by {
        assert(opt_lookup(n1.dir, w) is Some);
    }
}

/// Replacing the `dir` child rewrites exactly the words routed to it:
/// those starting with a larger character.
proof fn lemma_set_dir<T>(n1: TstNode<T>, n2: TstNode<T>, target: Seq<char>, v: T)
    requires
        n2.esq == n1.esq,
        n2.next == n1.next,
        n2.content == n1.content,
        n2.c == n1.c,
        target.len() > 0,
        target[0] > n1.c,
        forall|w: Seq<char>| #[trigger] opt_lookup(n2.dir, w) == (if w == target {
            Some(v)
        } else {
            opt_lookup(n1.dir, w)
        }),
        node_wf(n1),
        opt_wf(n2.dir),
    ensures
        forall|w: Seq<char>| #[trigger] node_lookup(n2, w) == (if w == target {
            Some(v)
        } else {
            node_lookup(n1, w)
        }),
        node_wf(n2),
{
    assert forall|w: Seq<char>| #[trigger] node_lookup(n2, w) == (if w == target {
        Some(v)
    } else {
        node_lookup(n1, w)
    }) by {
        if w.len() == 0 {
            assert(w != target);
        } else if w[0] == n1.c {
            assert(w != target);
            if w.len() == 1 {
                assert(node_lookup(n2, w) == n2.content);
                assert(node_lookup(n1, w) == n1.content);
            } else {
                assert(node_lookup(n2, w) == opt_lookup(n2.next, w.drop_first()));
                assert(node_lookup(n1, w) == opt_lookup(n1.next, w.drop_first()));
            }
        } else if w[0] < n1.c {
            assert(w != target);
            assert(node_lookup(n2, w) == opt_lookup(n2.esq, w));
            assert(node_lookup(n1, w) == opt_lookup(n1.esq, w));
        } else {
            assert(node_lookup(n2, w) == opt_lookup(n2.dir, w));
            assert(node_lookup(n1, w) == opt_lookup(n1.dir, w));
            if w == target {
                assert(opt_lookup(n2.dir, target) == Some(v));
            } else {
                assert(opt_lookup(n2.dir, w) == opt_lookup(n1.dir, w));
            }
        }
    }
    assert forall|w: Seq<char>| #[trigger] opt_lookup(n2.dir, w) is Some implies w.len() > 0 && w[0]
        > n2.c by {
        if w != target {
            assert(opt_lookup(n1.dir, w) is Some);
        }
    }
    assert forall|w: Seq<char>| #[trigger] opt_lookup(n2.esq, w) is Some implies w.len() > 0 && w[0]
        < n2.c by {
        assert(opt_lookup(n1.esq, w) is Some);
    }
}

impl<T> Default for TstNode<T> {
    /// A node with a blank character and no children: the shape of a
    /// fresh root.
    fn default() -> (n: Self)
        ensures
            forall|w: Seq<char>| #[trigger] node_lookup(n, w) is None,
            node_wf(n),
    {
        let n = TstNode { c: ' ', content: None, next: None, esq: None, dir: None };
        proof {
            lemma_empty_node(n);
        }
        n
    }
}

impl<T> TstNode<T> {
    /// A chain of `next`-linked nodes spelling `word[scanned..]`, with
    /// the payload at the final node.
    fn make_chain(word: &Vec<char>, content: T, scanned: usize) -> (n: TstNode<T>)
        requires
            scanned < word@.len(),
        ensures
            forall|w: Seq<char>| #[trigger] node_lookup(n, w) == (if w == word@.skip(
                scanned as int,
            ) {
                Some(content)
            } else {
                Option::<T>::None
            }),
            node_wf(n),
        decreases word@.len() - scanned,
    {
        let ghost target = word@.skip(scanned as int);
        let ghost gcontent = content;
        proof {
            lemma_skip_step(word@, scanned as int);
        }
        if scanned == word.len() - 1 {
            let n = TstNode {
                c: word[scanned],
                content: Some(content),
                next: None,
                esq: None,
                dir: None,
            };
            proof {
                lemma_leaf_node(n, gcontent);
                lemma_singleton(target, n.c);
            }
            n
        } else {
            let child = Self::make_chain(word, content, scanned + 1);
            let ghost gchild = child;
            let n = TstNode {
                c: word[scanned],
                content: None,
                next: Some(Box::new(child)),
                esq: None,
                dir: None,
            };
            proof {
                lemma_chain_node(n, gchild, target, gcontent);
            }
            n
        }
    }

    /// Adds the word `word[scanned..]` with its payload; the most recent
    /// payload for a word wins. Every other word keeps its value, and
    /// the node keeps its character and its sibling ordering.
    fn _insert(&mut self, word: &Vec<char>, content: T, scanned: usize)
        requires
            scanned < word@.len(),
            node_wf(*old(self)),
        ensures
            forall|w: Seq<char>| #[trigger] node_lookup(*final(self), w) == (if w == word@.skip(
                scanned as int,
            ) {
                Some(content)
            } else {
                node_lookup(*old(self), w)
            }),
            node_wf(*final(self)),
            final(self).c == old(self).c,
        decreases word@.len() - scanned, *old(self),
    {
        let ghost target = word@.skip(scanned as int);
        let ghost gcontent = content;
        let ghost n1 = *self;
        proof {
            lemma_skip_step(word@, scanned as int);
            lemma_unfold(n1);
            lemma_opt_unfold(n1.esq);
            lemma_opt_unfold(n1.dir);
            lemma_opt_unfold(n1.next);
        }
        let last = scanned == word.len() - 1;
        let c = word[scanned];
        if c == self.c {
            if last {
                self.content = Some(content);
                proof {
                    lemma_singleton(target, n1.c);
                    lemma_set_content(n1, *self, gcontent);
                }
            } else {
                match &mut self.next {
                    Some(next) => {
                        next._insert(word, content, scanned + 1);
                    },
                    None => {
                        let chain = Self::make_chain(word, content, scanned + 1);
                        self.next = Some(Box::new(chain));
                    },
                }
                proof {
                    lemma_opt_unfold(self.next);
                    lemma_set_next(n1, *self, target, gcontent);
                }
            }
        } else if c < self.c {
            match &mut self.esq {
                Some(a) => {
                    a._insert(word, content, scanned);
                },
                None => {
                    let chain = Self::make_chain(word, content, scanned);
                    self.esq = Some(Box::new(chain));
                },
            }
            proof {
                lemma_opt_unfold(self.esq);
                lemma_set_esq(n1, *self, target, gcontent);
            }
        } else {
            match &mut self.dir {
                Some(a) => {
                    a._insert(word, content, scanned);
                },
                None => {
                    let chain = Self::make_chain(word, content, scanned);
                    self.dir = Some(Box::new(chain));
                },
            }
            proof {
                assert(c != n1.c);
                lemma_opt_unfold(self.dir);
                lemma_set_dir(n1, *self, target, gcontent);
            }
        }
    }

    /// Stores the payload under the normalised word; the most recent
    /// payload for a word wins, and the empty word is ignored.
    pub fn insert(&mut self, word: &str, content: T) -> (r: Result<(), crate::DbError>)
        requires
            node_wf(*old(self)),
        ensures
            r is Ok,
            forall|w: Seq<char>| #[trigger] node_lookup(*final(self), w) == (if w == norm_of(
                word@,
            ) && norm_of(word@).len() > 0 {
                Some(content)
            } else {
                node_lookup(*old(self), w)
            }),
            node_wf(*final(self)),
    {
        let normalised = pre_process(word);
        let cs = chars_of(normalised.as_str());
        if cs.len() == 0 {
            return Ok(());
        }
        self._insert(&cs, content, 0);
        proof {
            lemma_skip_zero(cs@);
        }
        Ok(())
    }

    /// Follows the descent for `word[scanned..]` and returns a reference
    /// to its payload.
    fn _get(&self, word: &Vec<char>, scanned: usize) -> (r: Option<&T>)
        requires
            scanned < word@.len(),
        ensures
            match r {
                Some(v) => node_lookup(*self, word@.skip(scanned as int)) == Some(*v),
                None => node_lookup(*self, word@.skip(scanned as int)) is None,
            },
        decreases word@.len() - scanned, *self,
    {
        proof {
            lemma_skip_step(word@, scanned as int);
            lemma_unfold(*self);
            lemma_opt_unfold(self.esq);
            lemma_opt_unfold(self.dir);
            lemma_opt_unfold(self.next);
        }
        let last = scanned == word.len() - 1;
        let c = word[scanned];
        if c == self.c {
            if last {
                self.content.as_ref()
            } else {
                match &self.next {
                    Some(next) => next._get(word, scanned + 1),
                    None => None,
                }
            }
        } else if c < self.c {
            match &self.esq {
                Some(a) => a._get(word, scanned),
                None => None,
            }
        } else {
            match &self.dir {
                Some(a) => a._get(word, scanned),
                None => None,
            }
        }
    }

    /// Looks up the normalised word and returns a clone of its payload.
    pub fn get(&self, word: String) -> (r: Option<T>) where T: Clone
        ensures
            match r {
                Some(v) => node_lookup(*self, norm_of(word@)) is Some && cloned::<T>(
                    node_lookup(*self, norm_of(word@)).unwrap(),
                    v,
                ),
                None => node_lookup(*self, norm_of(word@)) is None,
            },
    {
        let normalised = pre_process(word.as_str());
        let cs = chars_of(normalised.as_str());
        if cs.len() == 0 {
            proof {
                lemma_unfold(*self);
            }
            return None;
        }
        proof {
            lemma_skip_zero(cs@);
        }
        match self._get(&cs, 0) {
            Some(v) => Some(v.clone()),
            None => None,
        }
    }

    /// Every stored word below this node, prefixed by the path text in
    /// `prefix`, paired with a clone of its payload, in traversal order.
    fn _get_words(&self, prefix: &Vec<char>) -> (r: Vec<(String, T)>) where T: Clone
        ensures
            r@.len() == words_of(*self, prefix@).len(),
            forall|i: int|
                0 <= i < r@.len() ==> (#[trigger] r@[i]).0@ == words_of(*self, prefix@)[i].0
                    && cloned::<T>(words_of(*self, prefix@)[i].1, r@[i].1),
        decreases *self,
    {
        proof {
            lemma_words_unfold(*self, prefix@);
        }
        let mut with_c = prefix.clone();
        with_c.push(self.c);
        proof {
            assert(with_c@ =~= prefix@.push(self.c));
        }
        let mut words: Vec<(String, T)> = Vec::new();
        let ghost part_a: Seq<(Seq<char>, T)> = if self.content is Some {
            seq![(prefix@.push(self.c), self.content->0)]
        } else {
            Seq::empty()
        };
        match &self.content {
            Some(v) => {
                words.push((string_from_chars(&with_c), v.clone()));
            },
            None => {},
        }
        let ghost part_b = opt_words(self.next, prefix@.push(self.c));
        match &self.next {
            Some(next) => {
                let mut sub = next._get_words(&with_c);
                words.append(&mut sub);
            },
            None => {},
        }
        proof {
            assert(words@.len() == (part_a + part_b).len());
        }
        let ghost part_c = opt_words(self.esq, prefix@);
        match &self.esq {
            Some(a) => {
                let mut sub = a._get_words(prefix);
                words.append(&mut sub);
            },
            None => {},
        }
        proof {
            assert(words@.len() == (part_a + part_b + part_c).len());
        }
        let ghost part_d = opt_words(self.dir, prefix@);
        match &self.dir {
            Some(a) => {
                let mut sub = a._get_words(prefix);
                words.append(&mut sub);
            },
            None => {},
        }
        proof {
            assert(words@.len() == (part_a + part_b + part_c + part_d).len());
            assert(words_of(*self, prefix@) == part_a + part_b + part_c + part_d);
        }
        words
    }

    /// Every stored word that continues this node (the node's own word
    /// and everything through `next`), in traversal order.
    pub fn get_child_words(&self) -> (r: Vec<(String, T)>) where T: Clone
        ensures
            r@.len() == child_words_of(*self, seq![self.spec_c()]).len(),
            forall|i: int|
                0 <= i < r@.len() ==> (#[trigger] r@[i]).0@ == child_words_of(
                    *self,
                    seq![self.spec_c()],
                )[i].0 && cloned::<T>(child_words_of(*self, seq![self.spec_c()])[i].1, r@[i].1),
    {
        let mut own = Vec::new();
        own.push(self.c);
        proof {
            assert(own@ =~= seq![self.c]);
        }
        self._get_child_words(&own)
    }

    /// The completions of the consumed prefix at this node: the prefix
    /// itself if a payload ends here, then every word through `next`.
    fn _get_child_words(&self, prefix: &Vec<char>) -> (r: Vec<(String, T)>) where T: Clone
        ensures
            r@.len() == child_words_of(*self, prefix@).len(),
            forall|i: int|
                0 <= i < r@.len() ==> (#[trigger] r@[i]).0@ == child_words_of(*self, prefix@)[i].0
                    && cloned::<T>(child_words_of(*self, prefix@)[i].1, r@[i].1),
    {
        proof {
            lemma_words_unfold(*self, prefix@);
        }
        let mut words: Vec<(String, T)> = Vec::new();
        let ghost part_a: Seq<(Seq<char>, T)> = if self.content is Some {
            seq![(prefix@, self.content->0)]
        } else {
            Seq::empty()
        };
        match &self.content {
            Some(v) => {
                words.push((string_from_chars(prefix), v.clone()));
            },
            None => {},
        }
        let ghost part_b = opt_words(self.next, prefix@);
        match &self.next {
            Some(next) => {
                let mut sub = next._get_words(prefix);
                words.append(&mut sub);
            },
            None => {},
        }
        proof {
            assert(child_words_of(*self, prefix@) == part_a + part_b);
        }
        words
    }

    /// This node's character.
    pub closed spec fn spec_c(self) -> char {
        self.c
    }

    /// Every stored word below this node with a clone of its payload, in
    /// traversal order.
    pub fn get_words(&self) -> (r: Vec<(String, T)>) where T: Clone
        ensures
            r@.len() == words_of(*self, Seq::empty()).len(),
            forall|i: int|
                0 <= i < r@.len() ==> (#[trigger] r@[i]).0@ == words_of(*self, Seq::empty())[i].0
                    && cloned::<T>(words_of(*self, Seq::empty())[i].1, r@[i].1),
    {
        let empty: Vec<char> = Vec::new();
        self._get_words(&empty)
    }

    /// Descends along `prefix[scanned..]` and enumerates the completions
    /// of the node that consumes the last prefix character.
    fn _find_from_prefix(&self, prefix: &Vec<char>, scanned: usize) -> (r: Vec<(String, T)>) where
        T: Clone,

        requires
            scanned < prefix@.len(),
        ensures
            r@.len() == find_words_of(*self, prefix@, scanned as int).len(),
            forall|i: int|
                0 <= i < r@.len() ==> (#[trigger] r@[i]).0@ == find_words_of(
                    *self,
                    prefix@,
                    scanned as int,
                )[i].0 && cloned::<T>(find_words_of(*self, prefix@, scanned as int)[i].1, r@[i].1),
        decreases prefix@.len() - scanned, *self,
    {
        proof {
            lemma_find_words_unfold(*self, prefix@, scanned as int);
        }
        let last = scanned == prefix.len() - 1;
        let c = prefix[scanned];
        if c == self.c {
            if last {
                self._get_child_words(prefix)
            } else {
                match &self.next {
                    Some(next) => next._find_from_prefix(prefix, scanned + 1),
                    None => Vec::new(),
                }
            }
        } else if c < self.c {
            match &self.esq {
                Some(a) => a._find_from_prefix(prefix, scanned),
                None => Vec::new(),
            }
        } else {
            match &self.dir {
                Some(a) => a._find_from_prefix(prefix, scanned),
                None => Vec::new(),
            }
        }
    }

    /// All stored words that the normalised prefix begins, each with a
    /// clone of its payload. An empty normalised prefix matches every
    /// stored word.
    pub fn find_from_prefix(&self, prefix: String) -> (r: Vec<(String, T)>) where T: Clone
        ensures
            r@.len() == node_find_result(*self, norm_of(prefix@)).len(),
            forall|i: int|
                0 <= i < r@.len() ==> (#[trigger] r@[i]).0@ == node_find_result(
                    *self,
                    norm_of(prefix@),
                )[i].0 && cloned::<T>(node_find_result(*self, norm_of(prefix@))[i].1, r@[i].1),
    {
        let normalised = pre_process(prefix.as_str());
        let cs = chars_of(normalised.as_str());
        if cs.len() == 0 {
            self.get_words()
        } else {
            self._find_from_prefix(&cs, 0)
        }
    }
}

/// What a prefix search over a node returns: every stored word for the
/// empty prefix, and the completions of the prefix otherwise.
pub closed spec fn node_find_result<T>(node: TstNode<T>, p: Seq<char>) -> Seq<(Seq<char>, T)> {
    if p.len() == 0 {
        words_of(node, Seq::empty())
    } else {
        find_words_of(node, p, 0)
    }
}

/// Whether `p` is a prefix of `w`.
pub open spec fn is_prefix_of(p: Seq<char>, w: Seq<char>) -> bool {
    w.len() >= p.len() && w.take(p.len() as int) == p
}

/// A sequence is its own prefix of full length.
proof fn lemma_take_whole(s: Seq<char>)
    ensures
        s.take(s.len() as int) == s,
{
    assert(s.take(s.len() as int) =~= s);
}

/// Every sequence begins with the empty prefix.
proof fn lemma_take_zero(s: Seq<char>)
    ensures
        s.take(0) == Seq::<char>::empty(),
{
    assert(s.take(0) =~= Seq::<char>::empty());
}

/// Appending a word that starts with `c` to a prefix ending in `c`
/// spells the same text as appending the word to the bare prefix.
proof fn lemma_push_concat(p: Seq<char>, c: char, w: Seq<char>)
    requires
        w.len() > 0,
        w[0] == c,
    ensures
        p.push(c) + w.drop_first() == p + w,
{
    assert(p.push(c) + w.drop_first() =~= p + w);
}

/// A prefix one longer keeps the shorter prefix and adds that position's
/// character.
proof fn lemma_take_snoc(w: Seq<char>, n: int)
    requires
        0 <= n < w.len(),
    ensures
        w.take(n + 1) == w.take(n).push(w[n]),
{
    assert(w.take(n + 1) =~= w.take(n).push(w[n]));
}

/// Splitting a known prefix of the form `p.push(c)` into its parts.
proof fn lemma_take_parts(w: Seq<char>, p: Seq<char>, c: char, n: int)
    requires
        0 <= n,
        n + 1 <= w.len(),
        w.take(n + 1) == p.push(c),
        p.len() == n,
    ensures
        w.take(n) == p,
        w[n] == c,
{
    assert forall|j: int| 0 <= j < n implies w.take(n)[j] == p[j] by {
        assert(w.take(n + 1)[j] == p.push(c)[j]);
    }
    assert(w.take(n) =~= p);
    assert(w.take(n + 1)[n] == p.push(c)[n]);
    assert(w.take(n + 1)[n] == w[n]);
    assert(p.push(c)[n] == c);
}

/// Every word an enumeration lists extends the path text, and looking
/// its suffix up from this node yields the listed payload.
proof fn lemma_words_sound<T>(node: TstNode<T>, prefix: Seq<char>)
    requires
        node_wf(node),
    ensures
        forall|i: int|
            0 <= i < words_of(node, prefix).len() ==> {
                let w = (#[trigger] words_of(node, prefix)[i]).0;
                let v = words_of(node, prefix)[i].1;
                &&& w.len() > prefix.len()
                &&& w.take(prefix.len() as int) == prefix
                &&& node_lookup(node, w.skip(prefix.len() as int)) == Some(v)
            },
    decreases node,
{
    let pairs = words_of(node, prefix);
    let n = prefix.len() as int;
    let part_a: Seq<(Seq<char>, T)> = if node.content is Some {
        seq![(prefix.push(node.c), node.content->0)]
    } else {
        Seq::empty()
    };
    let part_b = opt_words(node.next, prefix.push(node.c));
    let part_c = opt_words(node.esq, prefix);
    let part_d = opt_words(node.dir, prefix);
    if node.next is Some {
        lemma_words_sound(*node.next->0, prefix.push(node.c));
    }
    if node.esq is Some {
        lemma_words_sound(*node.esq->0, prefix);
    }
    if node.dir is Some {
        lemma_words_sound(*node.dir->0, prefix);
    }
    assert forall|i: int| 0 <= i < pairs.len() implies {
        let w = (#[trigger] pairs[i]).0;
        let v = pairs[i].1;
        &&& w.len() > prefix.len()
        &&& w.take(n) == prefix
        &&& node_lookup(node, w.skip(n)) == Some(v)
    } by {
        let w = pairs[i].0;
        let v = pairs[i].1;
        if i < part_a.len() {
            assert(w == prefix.push(node.c) && node.content == Some(v));
            lemma_take_whole(w);
            assert(w.take(n) =~= prefix);
            assert(w.skip(n) =~= seq![node.c]);
        } else if i < part_a.len() + part_b.len() {
            let j = i - part_a.len();
            assert(pairs[i] == part_b[j]);
            let w2 = part_b[j].0;
            assert(w2.take(n + 1) == prefix.push(node.c));
            assert(node_lookup(*node.next->0, w2.skip(n + 1)) == Some(v));
            lemma_take_parts(w2, prefix, node.c, n);
            lemma_skip_step(w2, n);
            assert(w2.skip(n)[0] == node.c);
            assert(w2.skip(n).len() >= 2);
            assert(node_lookup(node, w2.skip(n)) == opt_lookup(node.next, w2.skip(n).drop_first()));
            assert(w2.skip(n).drop_first() == w2.skip(n + 1));
        } else if i < part_a.len() + part_b.len() + part_c.len() {
            let j = i - part_a.len() - part_b.len();
            assert(pairs[i] == part_c[j]);
            let w2 = part_c[j].0;
            assert(node_lookup(*node.esq->0, w2.skip(n)) == Some(v));
            assert(opt_lookup(node.esq, w2.skip(n)) == Some(v));
            assert(w2.skip(n).len() > 0 && w2.skip(n)[0] < node.c);
            assert(node_lookup(node, w2.skip(n)) == opt_lookup(node.esq, w2.skip(n)));
        } else {
            let j = i - part_a.len() - part_b.len() - part_c.len();
            assert(pairs[i] == part_d[j]);
            let w2 = part_d[j].0;
            assert(node_lookup(*node.dir->0, w2.skip(n)) == Some(v));
            assert(opt_lookup(node.dir, w2.skip(n)) == Some(v));
            assert(w2.skip(n).len() > 0 && w2.skip(n)[0] > node.c);
            assert(node_lookup(node, w2.skip(n)) == opt_lookup(node.dir, w2.skip(n)));
        }
    }
}

/// Every stored word below a node shows up in its enumeration, with its
/// stored payload, prefixed by the path text.
proof fn lemma_words_complete<T>(node: TstNode<T>, prefix: Seq<char>)
    requires
        node_wf(node),
    ensures
        forall|w: Seq<char>|
            #[trigger] node_lookup(node, w) is Some ==> exists|i: int|
                0 <= i < words_of(node, prefix).len() && words_of(node, prefix)[i] == (
                prefix + w,
                node_lookup(node, w).unwrap(),
                ),
    decreases node,
{
    let pairs = words_of(node, prefix);
    let part_a: Seq<(Seq<char>, T)> = if node.content is Some {
        seq![(prefix.push(node.c), node.content->0)]
    } else {
        Seq::empty()
    };
    let part_b = opt_words(node.next, prefix.push(node.c));
    let part_c = opt_words(node.esq, prefix);
    let part_d = opt_words(node.dir, prefix);
    if node.next is Some {
        lemma_words_complete(*node.next->0, prefix.push(node.c));
    }
    if node.esq is Some {
        lemma_words_complete(*node.esq->0, prefix);
    }
    if node.dir is Some {
        lemma_words_complete(*node.dir->0, prefix);
    }
    assert forall|w: Seq<char>| #[trigger] node_lookup(node, w) is Some implies exists|i: int|
        0 <= i < pairs.len() && pairs[i] == (prefix + w, node_lookup(node, w).unwrap()) by {
        let v = node_lookup(node, w).unwrap();
        if w[0] == node.c {
            if w.len() == 1 {
                assert(node.content == Some(v));
                assert(prefix + w =~= prefix.push(node.c));
                assert(pairs[0] == (prefix + w, v));
            } else {
                assert(node_lookup(*node.next->0, w.drop_first()) is Some);
                let j = choose|j: int|
                    0 <= j < part_b.len() && part_b[j] == (
                    prefix.push(node.c) + w.drop_first(),
                    node_lookup(*node.next->0, w.drop_first()).unwrap(),
                    );
                lemma_push_concat(prefix, node.c, w);
                assert(pairs[part_a.len() + j] == (prefix + w, v));
            }
        } else if w[0] < node.c {
            assert(node_lookup(*node.esq->0, w) is Some);
            let j = choose|j: int|
                0 <= j < part_c.len() && part_c[j] == (
                prefix + w,
                node_lookup(*node.esq->0, w).unwrap(),
                );
            assert(pairs[part_a.len() + part_b.len() + j] == (prefix + w, v));
        } else {
            assert(node_lookup(*node.dir->0, w) is Some);
            let j = choose|j: int|
                0 <= j < part_d.len() && part_d[j] == (
                prefix + w,
                node_lookup(*node.dir->0, w).unwrap(),
                );
            assert(pairs[part_a.len() + part_b.len() + part_c.len() + j] == (prefix + w, v));
        }
    }
}

/// The words below a node, each with its payload, in traversal order:
/// the node's own word (its payload, if any), then the words through
/// `next`, then the `esq` subtree, then the `dir` subtree. `prefix` is
/// the text spelled on the way to this node, excluding its character.
pub closed spec fn words_of<T>(node: TstNode<T>, prefix: Seq<char>) -> Seq<(Seq<char>, T)>
    decreases node,
{
    (if node.content is Some {
        seq![(prefix.push(node.c), node.content->0)]
    } else {
        Seq::empty()
    }) + opt_words(node.next, prefix.push(node.c)) + opt_words(node.esq, prefix) + opt_words(
        node.dir,
        prefix,
    )
}

pub closed spec fn opt_words<T>(o: Option<Box<TstNode<T>>>, prefix: Seq<char>) -> Seq<
    (Seq<char>, T),
>
    decreases o,
{
    match o {
        None => Seq::empty(),
        Some(b) => words_of(*b, prefix),
    }
}

/// The completions of `prefix` below a node that matched all of it: the
/// word `prefix` itself if the node carries a payload, then every longer
/// word through `next`.
pub closed spec fn child_words_of<T>(node: TstNode<T>, prefix: Seq<char>) -> Seq<(Seq<char>, T)> {
    (if node.content is Some {
        seq![(prefix, node.content->0)]
    } else {
        Seq::empty()
    }) + opt_words(node.next, prefix)
}

/// The pairs a prefix search returns: descend along `prefix[scanned..]`
/// as a lookup would, and enumerate the completions of the node that
/// consumes the last character.
pub closed spec fn find_words_of<T>(node: TstNode<T>, prefix: Seq<char>, scanned: int) -> Seq<
    (Seq<char>, T),
>
    decreases node,
{
    if scanned < 0 || scanned >= prefix.len() {
        Seq::empty()
    } else if prefix[scanned] == node.c {
        if scanned == prefix.len() - 1 {
            child_words_of(node, prefix)
        } else {
            opt_find_words(node.next, prefix, scanned + 1)
        }
    } else if prefix[scanned] < node.c {
        opt_find_words(node.esq, prefix, scanned)
    } else {
        opt_find_words(node.dir, prefix, scanned)
    }
}

pub closed spec fn opt_find_words<T>(o: Option<Box<TstNode<T>>>, prefix: Seq<char>, scanned: int) -> Seq<
    (Seq<char>, T),
>
    decreases o,
{
    match o {
        None => Seq::empty(),
        Some(b) => find_words_of(*b, prefix, scanned),
    }
}

/// The defining equations of `words_of` and `opt_words`.
proof fn lemma_words_unfold<T>(node: TstNode<T>, prefix: Seq<char>)
    ensures
        words_of(node, prefix) == (if node.content is Some {
            seq![(prefix.push(node.c), node.content->0)]
        } else {
            Seq::empty()
        }) + opt_words(node.next, prefix.push(node.c)) + opt_words(node.esq, prefix) + opt_words(
            node.dir,
            prefix,
        ),
        forall|p2: Seq<char>| #[trigger] opt_words(node.next, p2) == (match node.next {
            None => Seq::<(Seq<char>, T)>::empty(),
            Some(b) => words_of(*b, p2),
        }),
        forall|p2: Seq<char>| #[trigger] opt_words(node.esq, p2) == (match node.esq {
            None => Seq::<(Seq<char>, T)>::empty(),
            Some(b) => words_of(*b, p2),
        }),
        forall|p2: Seq<char>| #[trigger] opt_words(node.dir, p2) == (match node.dir {
            None => Seq::<(Seq<char>, T)>::empty(),
            Some(b) => words_of(*b, p2),
        }),
        child_words_of(node, prefix) == (if node.content is Some {
            seq![(prefix, node.content->0)]
        } else {
            Seq::empty()
        }) + opt_words(node.next, prefix),
{
}

/// The defining equations of `find_words_of` and `opt_find_words`.
proof fn lemma_find_words_unfold<T>(node: TstNode<T>, prefix: Seq<char>, scanned: int)
    ensures
        find_words_of(node, prefix, scanned) == (if scanned < 0 || scanned >= prefix.len() {
            Seq::empty()
        } else if prefix[scanned] == node.c {
            if scanned == prefix.len() - 1 {
                child_words_of(node, prefix)
            } else {
                opt_find_words(node.next, prefix, scanned + 1)
            }
        } else if prefix[scanned] < node.c {
            opt_find_words(node.esq, prefix, scanned)
        } else {
            opt_find_words(node.dir, prefix, scanned)
        }),
        forall|s2: int| #[trigger] opt_find_words(node.next, prefix, s2) == (match node.next {
            None => Seq::<(Seq<char>, T)>::empty(),
            Some(b) => find_words_of(*b, prefix, s2),
        }),
        forall|s2: int| #[trigger] opt_find_words(node.esq, prefix, s2) == (match node.esq {
            None => Seq::<(Seq<char>, T)>::empty(),
            Some(b) => find_words_of(*b, prefix, s2),
        }),
        forall|s2: int| #[trigger] opt_find_words(node.dir, prefix, s2) == (match node.dir {
            None => Seq::<(Seq<char>, T)>::empty(),
            Some(b) => find_words_of(*b, prefix, s2),
        }),
{
}

/// No stored word is listed twice by an enumeration: the four parts of
/// a node's word list are told apart by length and by the character at
/// the path position, and each part is distinct by induction.
proof fn lemma_words_distinct<T>(node: TstNode<T>, prefix: Seq<char>)
    requires
        node_wf(node),
    ensures
        forall|i: int, j: int|
            0 <= i < j < words_of(node, prefix).len() ==> (#[trigger] words_of(node, prefix)[i]).0
                != (#[trigger] words_of(node, prefix)[j]).0,
    decreases node,
{
    let pairs = words_of(node, prefix);
    let n = prefix.len() as int;
    let part_a: Seq<(Seq<char>, T)> = if node.content is Some {
        seq![(prefix.push(node.c), node.content->0)]
    } else {
        Seq::empty()
    };
    let part_b = opt_words(node.next, prefix.push(node.c));
    let part_c = opt_words(node.esq, prefix);
    let part_d = opt_words(node.dir, prefix);
    if node.next is Some {
        lemma_words_sound(*node.next->0, prefix.push(node.c));
        lemma_words_distinct(*node.next->0, prefix.push(node.c));
    }
    if node.esq is Some {
        lemma_words_sound(*node.esq->0, prefix);
        lemma_words_distinct(*node.esq->0, prefix);
    }
    if node.dir is Some {
        lemma_words_sound(*node.dir->0, prefix);
        lemma_words_distinct(*node.dir->0, prefix);
    }
    // the character each part's words carry at the path position
    assert forall|x: int|
        0 <= x < part_b.len() implies (#[trigger] part_b[x]).0.len() > n + 1 && part_b[x].0[n]
        == node.c by {
        let w = part_b[x].0;
        assert(w.take(n + 1) == prefix.push(node.c));
        assert(w.take(n + 1)[n] == w[n]);
        assert(prefix.push(node.c)[n] == node.c);
    }
    assert forall|x: int|
        0 <= x < part_c.len() implies (#[trigger] part_c[x]).0.len() > n && part_c[x].0[n]
        < node.c by {
        let w = part_c[x].0;
        assert(node_lookup(*node.esq->0, w.skip(n)) is Some);
        assert(opt_lookup(node.esq, w.skip(n)) is Some);
        assert(w.skip(n)[0] < node.c);
        assert(w.skip(n)[0] == w[n]);
    }
    assert forall|x: int|
        0 <= x < part_d.len() implies (#[trigger] part_d[x]).0.len() > n && part_d[x].0[n]
        > node.c by {
        let w = part_d[x].0;
        assert(node_lookup(*node.dir->0, w.skip(n)) is Some);
        assert(opt_lookup(node.dir, w.skip(n)) is Some);
        assert(w.skip(n)[0] > node.c);
        assert(w.skip(n)[0] == w[n]);
    }
    assert forall|i: int, j: int|
        0 <= i < j < pairs.len() implies (#[trigger] pairs[i]).0 != (#[trigger] pairs[j]).0 by {
        let ab = part_a.len() + part_b.len();
        let abc = ab + part_c.len();
        if i < part_a.len() {
            let wi = pairs[i].0;
            assert(wi == prefix.push(node.c));
            assert(wi.len() == n + 1 && wi[n] == node.c);
            if j < ab {
                assert(pairs[j] == part_b[j - part_a.len()]);
                assert(pairs[j].0.len() > n + 1);
            } else if j < abc {
                assert(pairs[j] == part_c[j - ab]);
                assert(pairs[j].0[n] < node.c);
            } else {
                assert(pairs[j] == part_d[j - abc]);
                assert(pairs[j].0[n] > node.c);
            }
        } else if i < ab {
            assert(pairs[i] == part_b[i - part_a.len()]);
            if j < ab {
                assert(pairs[j] == part_b[j - part_a.len()]);
            } else if j < abc {
                assert(pairs[i].0[n] == node.c);
                assert(pairs[j] == part_c[j - ab]);
                assert(pairs[j].0[n] < node.c);
            } else {
                assert(pairs[i].0[n] == node.c);
                assert(pairs[j] == part_d[j - abc]);
                assert(pairs[j].0[n] > node.c);
            }
        } else if i < abc {
            assert(pairs[i] == part_c[i - ab]);
            if j < abc {
                assert(pairs[j] == part_c[j - ab]);
            } else {
                assert(pairs[i].0[n] < node.c);
                assert(pairs[j] == part_d[j - abc]);
                assert(pairs[j].0[n] > node.c);
            }
        } else {
            assert(pairs[i] == part_d[i - abc]);
            assert(pairs[j] == part_d[j - abc]);
        }
    }
}

/// No stored word is listed twice by a prefix search.
proof fn lemma_find_words_distinct<T>(node: TstNode<T>, p: Seq<char>, s: int)
    requires
        node_wf(node),
        0 <= s < p.len(),
    ensures
        forall|i: int, j: int|
            0 <= i < j < find_words_of(node, p, s).len() ==> (#[trigger] find_words_of(
                node,
                p,
                s,
            )[i]).0 != (#[trigger] find_words_of(node, p, s)[j]).0,
    decreases node,
{
    lemma_find_words_unfold(node, p, s);
    lemma_words_unfold(node, p);
    let pairs = find_words_of(node, p, s);
    let n = p.len() as int;
    if p[s] == node.c {
        if s == n - 1 {
            let part_a: Seq<(Seq<char>, T)> = if node.content is Some {
                seq![(p, node.content->0)]
            } else {
                Seq::empty()
            };
            let part_b = opt_words(node.next, p);
            if node.next is Some {
                lemma_words_sound(*node.next->0, p);
                lemma_words_distinct(*node.next->0, p);
            }
            assert forall|i: int, j: int|
                0 <= i < j < pairs.len() implies (#[trigger] pairs[i]).0 != (
            #[trigger] pairs[j]).0 by {
                if i < part_a.len() {
                    assert(pairs[i].0 == p);
                    assert(pairs[j] == part_b[j - part_a.len()]);
                    assert(pairs[j].0.len() > n);
                } else {
                    assert(pairs[i] == part_b[i - part_a.len()]);
                    assert(pairs[j] == part_b[j - part_a.len()]);
                }
            }
        } else {
            if node.next is Some {
                lemma_find_words_distinct(*node.next->0, p, s + 1);
            }
        }
    } else if p[s] < node.c {
        if node.esq is Some {
            lemma_find_words_distinct(*node.esq->0, p, s);
        }
    } else {
        if node.dir is Some {
            lemma_find_words_distinct(*node.dir->0, p, s);
        }
    }
}

/// Every pair a prefix search lists is a stored word that the prefix
/// begins, with its stored payload.
proof fn lemma_find_sound<T>(node: TstNode<T>, p: Seq<char>, s: int)
    requires
        node_wf(node),
        0 <= s < p.len(),
    ensures
        forall|i: int|
            0 <= i < find_words_of(node, p, s).len() ==> {
                let w = (#[trigger] find_words_of(node, p, s)[i]).0;
                let v = find_words_of(node, p, s)[i].1;
                &&& w.len() >= p.len()
                &&& w.take(p.len() as int) == p
                &&& node_lookup(node, w.skip(s)) == Some(v)
            },
    decreases node,
{
    let pairs = find_words_of(node, p, s);
    let n = p.len() as int;
    if p[s] == node.c {
        if s == n - 1 {
            let part_a: Seq<(Seq<char>, T)> = if node.content is Some {
                seq![(p, node.content->0)]
            } else {
                Seq::empty()
            };
            let part_b = opt_words(node.next, p);
            if node.next is Some {
                lemma_words_sound(*node.next->0, p);
            }
            assert forall|i: int| 0 <= i < pairs.len() implies {
                let w = (#[trigger] pairs[i]).0;
                let v = pairs[i].1;
                &&& w.len() >= p.len()
                &&& w.take(n) == p
                &&& node_lookup(node, w.skip(s)) == Some(v)
            } by {
                let w = pairs[i].0;
                let v = pairs[i].1;
                if i < part_a.len() {
                    assert(w == p && node.content == Some(v));
                    lemma_take_whole(w);
                    lemma_skip_step(w, s);
                    assert(w.skip(s) =~= seq![node.c]);
                } else {
                    let j = i - part_a.len();
                    assert(pairs[i] == part_b[j]);
                    assert(w.take(n) == p);
                    assert(node_lookup(*node.next->0, w.skip(n)) == Some(v));
                    lemma_skip_step(w, s);
                    assert(w.skip(s)[0] == w[s]);
                    assert(w[s] == w.take(n)[s]);
                    assert(w.skip(s).len() >= 2);
                    assert(w.skip(s).drop_first() == w.skip(n));
                    assert(node_lookup(node, w.skip(s)) == opt_lookup(node.next, w.skip(n)));
                }
            }
        } else {
            if node.next is Some {
                lemma_find_sound(*node.next->0, p, s + 1);
            }
            assert forall|i: int| 0 <= i < pairs.len() implies {
                let w = (#[trigger] pairs[i]).0;
                let v = pairs[i].1;
                &&& w.len() >= p.len()
                &&& w.take(n) == p
                &&& node_lookup(node, w.skip(s)) == Some(v)
            } by {
                let w = pairs[i].0;
                let v = pairs[i].1;
                assert(node_lookup(*node.next->0, w.skip(s + 1)) == Some(v));
                lemma_skip_step(w, s);
                assert(w.skip(s)[0] == w[s]);
                assert(w[s] == w.take(n)[s]);
                assert(w.skip(s).len() >= 2);
                assert(w.skip(s).drop_first() == w.skip(s + 1));
                assert(node_lookup(node, w.skip(s)) == opt_lookup(node.next, w.skip(s + 1)));
            }
        }
    } else if p[s] < node.c {
        if node.esq is Some {
            lemma_find_sound(*node.esq->0, p, s);
        }
        assert forall|i: int| 0 <= i < pairs.len() implies {
            let w = (#[trigger] pairs[i]).0;
            let v = pairs[i].1;
            &&& w.len() >= p.len()
            &&& w.take(n) == p
            &&& node_lookup(node, w.skip(s)) == Some(v)
        } by {
            let w = pairs[i].0;
            let v = pairs[i].1;
            assert(node_lookup(*node.esq->0, w.skip(s)) == Some(v));
            lemma_skip_step(w, s);
            assert(w.skip(s)[0] == w[s]);
            assert(w[s] == w.take(n)[s]);
            assert(node_lookup(node, w.skip(s)) == opt_lookup(node.esq, w.skip(s)));
        }
    } else {
        if node.dir is Some {
            lemma_find_sound(*node.dir->0, p, s);
        }
        assert forall|i: int| 0 <= i < pairs.len() implies {
            let w = (#[trigger] pairs[i]).0;
            let v = pairs[i].1;
            &&& w.len() >= p.len()
            &&& w.take(n) == p
            &&& node_lookup(node, w.skip(s)) == Some(v)
        } by {
            let w = pairs[i].0;
            let v = pairs[i].1;
            assert(node_lookup(*node.dir->0, w.skip(s)) == Some(v));
            lemma_skip_step(w, s);
            assert(w.skip(s)[0] == w[s]);
            assert(w[s] == w.take(n)[s]);
            assert(node_lookup(node, w.skip(s)) == opt_lookup(node.dir, w.skip(s)));
        }
    }
}

/// Every stored word that the prefix begins shows up in the prefix
/// search, with its stored payload. `w2` ranges over lookups relative to
/// this node, which sits at prefix position `s`.
proof fn lemma_find_complete<T>(node: TstNode<T>, p: Seq<char>, s: int)
    requires
        node_wf(node),
        0 <= s < p.len(),
    ensures
        forall|w2: Seq<char>|
            (#[trigger] node_lookup(node, w2) is Some && w2.len() >= p.len() - s && w2.take(
                p.len() - s,
            ) == p.skip(s)) ==> exists|i: int|
                0 <= i < find_words_of(node, p, s).len() && find_words_of(node, p, s)[i] == (
                p.take(s) + w2,
                node_lookup(node, w2).unwrap(),
                ),
    decreases node,
{
    let pairs = find_words_of(node, p, s);
    let n = p.len() as int;
    assert forall|w2: Seq<char>|
        (#[trigger] node_lookup(node, w2) is Some && w2.len() >= n - s && w2.take(n - s) == p.skip(
            s,
        )) implies exists|i: int|
        0 <= i < pairs.len() && pairs[i] == (p.take(s) + w2, node_lookup(node, w2).unwrap()) by {
        let v = node_lookup(node, w2).unwrap();
        assert(w2[0] == w2.take(n - s)[0]);
        assert(p.skip(s)[0] == p[s]);
        assert(w2[0] == p[s]);
        if w2[0] == node.c {
            if s == n - 1 {
                let part_a: Seq<(Seq<char>, T)> = if node.content is Some {
                    seq![(p, node.content->0)]
                } else {
                    Seq::empty()
                };
                let part_b = opt_words(node.next, p);
                if w2.len() == 1 {
                    assert(node.content == Some(v));
                    assert(p.take(s) + w2 =~= p);
                    assert(pairs[0] == (p.take(s) + w2, v));
                } else {
                    assert(node_lookup(*node.next->0, w2.drop_first()) is Some);
                    lemma_words_complete(*node.next->0, p);
                    let j = choose|j: int|
                        0 <= j < part_b.len() && part_b[j] == (
                        p + w2.drop_first(),
                        node_lookup(*node.next->0, w2.drop_first()).unwrap(),
                        );
                    assert(p.take(s) + w2 =~= p + w2.drop_first());
                    assert(pairs[part_a.len() + j] == (p.take(s) + w2, v));
                }
            } else {
                assert(w2.len() >= 2);
                assert(node_lookup(*node.next->0, w2.drop_first()) is Some);
                lemma_find_complete(*node.next->0, p, s + 1);
                assert(w2.drop_first().take(n - s - 1) =~= p.skip(s + 1)) by {
                    assert forall|k: int| 0 <= k < n - s - 1 implies #[trigger] w2.drop_first().take(
                        n - s - 1,
                    )[k] == p.skip(s + 1)[k] by {
                        assert(w2.drop_first().take(n - s - 1)[k] == w2[k + 1]);
                        assert(w2[k + 1] == w2.take(n - s)[k + 1]);
                        assert(p.skip(s)[k + 1] == p[s + 1 + k]);
                        assert(p.skip(s + 1)[k] == p[s + 1 + k]);
                    }
                }
                let vv = node_lookup(*node.next->0, w2.drop_first()).unwrap();
                let j = choose|j: int|
                    0 <= j < find_words_of(*node.next->0, p, s + 1).len() && #[trigger] find_words_of(
                        *node.next->0,
                        p,
                        s + 1,
                    )[j] == (p.take(s + 1) + w2.drop_first(), vv);
                lemma_take_snoc(p, s);
                lemma_push_concat(p.take(s), node.c, w2);
                assert(p.take(s + 1) + w2.drop_first() == p.take(s) + w2);
                assert(pairs[j] == (p.take(s) + w2, v));
            }
        } else if w2[0] < node.c {
            assert(node_lookup(*node.esq->0, w2) is Some);
            lemma_find_complete(*node.esq->0, p, s);
            let j = choose|j: int|
                0 <= j < find_words_of(*node.esq->0, p, s).len() && #[trigger] find_words_of(
                    *node.esq->0,
                    p,
                    s,
                )[j] == (p.take(s) + w2, node_lookup(*node.esq->0, w2).unwrap());
            assert(pairs[j] == (p.take(s) + w2, v));
        } else {
            assert(node_lookup(*node.dir->0, w2) is Some);
            lemma_find_complete(*node.dir->0, p, s);
            let j = choose|j: int|
                0 <= j < find_words_of(*node.dir->0, p, s).len() && #[trigger] find_words_of(
                    *node.dir->0,
                    p,
                    s,
                )[j] == (p.take(s) + w2, node_lookup(*node.dir->0, w2).unwrap());
            assert(pairs[j] == (p.take(s) + w2, v));
        }
    }
}

impl<T> TstNode<T> {
    /// Renders the trie sideways, one node per line, for inspection:
    /// deeper nodes are indented, `next` and `dir` subtrees above a
    /// node, the `esq` subtree below it.
    fn render_vertical(&self, level: usize) -> String where T: core::fmt::Debug
        decreases *self,
    {
        let deeper = if level < usize::MAX {
            level + 1
        } else {
            level
        };
        let mut out = String::new();
        match &self.next {
            Some(next) => {
                let sub = next.render_vertical(deeper);
                out.append(sub.as_str());
            },
            None => {},
        }
        match &self.dir {
            Some(dir) => {
                let sub = dir.render_vertical(deeper);
                out.append(sub.as_str());
            },
            None => {},
        }
        let mut i: usize = 0;
        while i < level
            decreases level - i,
        {
            push_char(&mut out, '.');
            i = i + 1;
        }
        push_char(&mut out, self.c);
        out.append(" - ");
        let rendered = debug_text(&self.content);
        out.append(rendered.as_str());
        push_char(&mut out, '\n');
        match &self.esq {
            Some(esq) => {
                let sub = esq.render_vertical(deeper);
                out.append(sub.as_str());
            },
            None => {},
        }
        out
    }
}

impl<T> Tst<T> {
    /// The value stored under an already-normalised word.
    pub closed spec fn spec_get(self, w: Seq<char>) -> Option<T> {
        node_lookup(self.root, w)
    }

    /// The trie's structural invariant.
    pub closed spec fn wf(self) -> bool {
        node_wf(self.root)
    }

    pub fn new() -> (t: Self)
        ensures
            t.wf(),
            forall|w: Seq<char>| #[trigger] t.spec_get(w) is None,
    {
        Tst { root: TstNode::default() }
    }

    /// Stores the payload under the normalised word; the most recent
    /// payload for a word wins, and the empty word is ignored.
    pub fn insert(&mut self, word: &String, content: T) -> (r: Result<(), crate::DbError>)
        requires
            old(self).wf(),
        ensures
            r is Ok,
            final(self).wf(),
            forall|w: Seq<char>| #[trigger] final(self).spec_get(w) == (if w == norm_of(word@)
                && norm_of(word@).len() > 0 {
                Some(content)
            } else {
                old(self).spec_get(w)
            }),
    {
        self.root.insert(word.as_str(), content)
    }

    /// Looks up the normalised word and returns a clone of its payload.
    pub fn get(&self, word: String) -> (r: Option<T>) where T: Clone
        ensures
            match r {
                Some(v) => self.spec_get(norm_of(word@)) is Some && cloned::<T>(
                    self.spec_get(norm_of(word@)).unwrap(),
                    v,
                ),
                None => self.spec_get(norm_of(word@)) is None,
            },
    {
        self.root.get(word)
    }

    /// All stored (word, payload) pairs, in traversal order.
    pub closed spec fn spec_words(self) -> Seq<(Seq<char>, T)> {
        words_of(self.root, Seq::empty())
    }

    /// What a prefix search for the already-normalised prefix `p`
    /// returns.
    pub closed spec fn spec_find(self, p: Seq<char>) -> Seq<(Seq<char>, T)> {
        node_find_result(self.root, p)
    }

    /// Every stored word with a clone of its last-written payload.
    pub fn get_words(&self) -> (r: Vec<(String, T)>) where T: Clone
        ensures
            r@.len() == self.spec_words().len(),
            forall|i: int|
                0 <= i < r@.len() ==> (#[trigger] r@[i]).0@ == self.spec_words()[i].0 && cloned::<
                    T,
                >(self.spec_words()[i].1, r@[i].1),
    {
        self.root.get_words()
    }

    /// All stored words that the normalised prefix begins, each with a
    /// clone of its last-written payload. An empty normalised prefix
    /// matches every stored word.
    pub fn find_from_prefix(&self, prefix: String) -> (r: Vec<(String, T)>) where T: Clone
        ensures
            r@.len() == self.spec_find(norm_of(prefix@)).len(),
            forall|i: int|
                0 <= i < r@.len() ==> (#[trigger] r@[i]).0@ == self.spec_find(norm_of(prefix@))[i].0
                    && cloned::<T>(self.spec_find(norm_of(prefix@))[i].1, r@[i].1),
    {
        self.root.find_from_prefix(prefix)
    }

    /// The trie rendered sideways, one node per line, for inspection.
    pub fn print_vertical(&self) -> String where T: core::fmt::Debug {
        self.root.render_vertical(0)
    }

    /// Law: a full enumeration lists exactly the stored words, each with
    /// its last-written payload — every listed pair is stored, every
    /// stored word is listed, and no word is listed twice.
    pub proof fn lemma_words_exact(self)
        requires
            self.wf(),
        ensures
            forall|i: int|
                0 <= i < self.spec_words().len() ==> self.spec_get(
                    (#[trigger] self.spec_words()[i]).0,
                ) == Some(self.spec_words()[i].1),
            forall|w: Seq<char>|
                #[trigger] self.spec_get(w) is Some ==> exists|i: int|
                    0 <= i < self.spec_words().len() && self.spec_words()[i] == (
                    w,
                    self.spec_get(w).unwrap(),
                    ),
            forall|i: int, j: int|
                0 <= i < j < self.spec_words().len() ==> (#[trigger] self.spec_words()[i]).0 != (
                #[trigger] self.spec_words()[j]).0,
    {
        lemma_words_sound(self.root, Seq::empty());
        lemma_words_complete(self.root, Seq::empty());
        lemma_words_distinct(self.root, Seq::empty());
        assert forall|i: int|
            0 <= i < self.spec_words().len() implies self.spec_get(
            (#[trigger] self.spec_words()[i]).0,
        ) == Some(self.spec_words()[i].1) by {
            let w = self.spec_words()[i].0;
            lemma_skip_zero(w);
        }
        assert forall|w: Seq<char>| #[trigger] self.spec_get(w) is Some implies exists|i: int|
            0 <= i < self.spec_words().len() && self.spec_words()[i] == (
            w,
            self.spec_get(w).unwrap(),
            ) by {
            let j = choose|j: int|
                0 <= j < self.spec_words().len() && #[trigger] self.spec_words()[j] == (
                Seq::<char>::empty() + w,
                self.spec_get(w).unwrap(),
                );
            assert(Seq::<char>::empty() + w =~= w);
        }
    }

    /// Law: a prefix search lists exactly the stored words that the
    /// prefix begins, each with its last-written payload, and no word
    /// twice.
    pub proof fn lemma_find_exact(self, p: Seq<char>)
        requires
            self.wf(),
        ensures
            forall|i: int|
                0 <= i < self.spec_find(p).len() ==> is_prefix_of(
                    p,
                    (#[trigger] self.spec_find(p)[i]).0,
                ) && self.spec_get(self.spec_find(p)[i].0) == Some(self.spec_find(p)[i].1),
            forall|w: Seq<char>|
                #[trigger] self.spec_get(w) is Some && is_prefix_of(p, w) ==> exists|i: int|
                    0 <= i < self.spec_find(p).len() && self.spec_find(p)[i] == (
                    w,
                    self.spec_get(w).unwrap(),
                    ),
            forall|i: int, j: int|
                0 <= i < j < self.spec_find(p).len() ==> (#[trigger] self.spec_find(p)[i]).0 != (
                #[trigger] self.spec_find(p)[j]).0,
    {
        if p.len() == 0 {
            self.lemma_words_exact();
            assert forall|i: int|
                0 <= i < self.spec_find(p).len() implies is_prefix_of(
                p,
                (#[trigger] self.spec_find(p)[i]).0,
            ) && self.spec_get(self.spec_find(p)[i].0) == Some(self.spec_find(p)[i].1) by {
                let w = self.spec_find(p)[i].0;
                lemma_take_zero(w);
                assert(p =~= Seq::<char>::empty());
            }
            assert forall|w: Seq<char>|
                #[trigger] self.spec_get(w) is Some && is_prefix_of(p, w) implies exists|i: int|
                0 <= i < self.spec_find(p).len() && self.spec_find(p)[i] == (
                w,
                self.spec_get(w).unwrap(),
                ) by {}
        } else {
            lemma_find_sound(self.root, p, 0);
            lemma_find_complete(self.root, p, 0);
            lemma_find_words_distinct(self.root, p, 0);
            assert forall|i: int|
                0 <= i < self.spec_find(p).len() implies is_prefix_of(
                p,
                (#[trigger] self.spec_find(p)[i]).0,
            ) && self.spec_get(self.spec_find(p)[i].0) == Some(self.spec_find(p)[i].1) by {
                let w = self.spec_find(p)[i].0;
                lemma_skip_zero(w);
            }
            assert forall|w: Seq<char>|
                #[trigger] self.spec_get(w) is Some && is_prefix_of(p, w) implies exists|i: int|
                0 <= i < self.spec_find(p).len() && self.spec_find(p)[i] == (
                w,
                self.spec_get(w).unwrap(),
                ) by {
                lemma_skip_zero(p);
                lemma_take_zero(p);
                assert(w.take(p.len() as int) == p.skip(0));
                let j = choose|j: int|
                    0 <= j < find_words_of(self.root, p, 0).len() && #[trigger] find_words_of(
                        self.root,
                        p,
                        0,
                    )[j] == (p.take(0) + w, node_lookup(self.root, w).unwrap());
                assert(p.take(0) + w =~= w);
            }
        }
    }
}

} // verus!
