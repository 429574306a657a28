//! A trie-based autocomplete engine: a prefix tree that stores a set of
//! strings and, given a prefix, returns every stored string that starts
//! with it.
//!
//! The model of the structure is the set of stored words, each a
//! `Seq<char>`. A node holds one child per character (first match wins;
//! construction keeps the characters of a node's children distinct) and a
//! terminal marker that says "a stored word ends here".

use vstd::prelude::*;
use crate::chars::push_char;
use crate::chars::str_chars;

verus! {

/// One node of the prefix tree.
struct Trie {
    children: Vec<(char, Trie)>,
    terminal: bool,
}

/// The subtree reached from `cs` by the first child labelled `c`, if any.
spec fn first_child(cs: Seq<(char, Trie)>, c: char) -> Option<Trie>
    decreases cs.len(),
{
    if cs.len() == 0 {
        None
    } else if cs[0].0 == c {
        Some(cs[0].1)
    } else {
        first_child(cs.drop_first(), c)
    }
}

/// Whether the word `w` is stored in the subtree rooted at `t`.
spec fn has_word(t: Trie, w: Seq<char>) -> bool
    decreases w.len(),
{
    if w.len() == 0 {
        t.terminal
    } else {
        match first_child(t.children@, w[0]) {
            None => false,
            Some(sub) => has_word(sub, w.drop_first()),
        }
    }
}

/// Well-formedness: the characters of a node's children are pairwise
/// distinct, at every level.
spec fn wf_trie(t: Trie) -> bool
    decreases t,
{
    &&& (forall|i: int, j: int|
        0 <= i < j < t.children@.len() ==> (#[trigger] t.children@[i]).0 != (
        #[trigger] t.children@[j]).0)
    &&& (forall|i: int|
        0 <= i < t.children@.len() ==> wf_trie((#[trigger] t.children@[i]).1))
}

proof fn lemma_first_child_at(cs: Seq<(char, Trie)>, j: int)
    requires
        0 <= j < cs.len(),
        forall|i: int| 0 <= i < j ==> (#[trigger] cs[i]).0 != cs[j].0,
    ensures
        first_child(cs, cs[j].0) == Some(cs[j].1),
    decreases j,
{
    if j > 0 {
        assert(cs.drop_first()[j - 1] == cs[j]);
        assert(forall|i: int|
            0 <= i < j - 1 ==> (#[trigger] cs.drop_first()[i]).0 != cs.drop_first()[j - 1].0);
        lemma_first_child_at(cs.drop_first(), j - 1);
    }
}

proof fn lemma_first_child_none(cs: Seq<(char, Trie)>, c: char)
    requires
        forall|i: int| 0 <= i < cs.len() ==> (#[trigger] cs[i]).0 != c,
    ensures
        first_child(cs, c) is None,
    decreases cs.len(),
{
    if cs.len() > 0 {
        lemma_first_child_none(cs.drop_first(), c);
    }
}

proof fn lemma_first_child_update(cs: Seq<(char, Trie)>, j: int, sub2: Trie)
    requires
        0 <= j < cs.len(),
        forall|i: int| 0 <= i < j ==> (#[trigger] cs[i]).0 != cs[j].0,
    ensures
        first_child(cs.update(j, (cs[j].0, sub2)), cs[j].0) == Some(sub2),
        forall|c: char|
            c != cs[j].0 ==> first_child(cs.update(j, (cs[j].0, sub2)), c) == first_child(cs, c),
    decreases j,
{
    let cs2 = cs.update(j, (cs[j].0, sub2));
    if j == 0 {
        assert(cs2.drop_first() =~= cs.drop_first());
        assert(cs2[0] == (cs[j].0, sub2));
        assert forall|c: char| c != cs[j].0 implies first_child(cs2, c) == first_child(cs, c) by {
            assert(first_child(cs2, c) == first_child(cs2.drop_first(), c));
            assert(first_child(cs, c) == first_child(cs.drop_first(), c));
        }
    } else {
        let tail2 = cs.drop_first().update(j - 1, (cs[j].0, sub2));
        assert(cs.drop_first()[j - 1] == cs[j]);
        assert(forall|i: int|
            0 <= i < j - 1 ==> (#[trigger] cs.drop_first()[i]).0 != cs.drop_first()[j - 1].0);
        lemma_first_child_update(cs.drop_first(), j - 1, sub2);
        assert(cs2.drop_first() =~= tail2);
        assert(cs2[0] == cs[0]);
        assert(cs[0].0 != cs[j].0);
        assert(first_child(cs2, cs[j].0) == first_child(tail2, cs[j].0));
        assert forall|c: char| c != cs[j].0 implies first_child(cs2, c) == first_child(cs, c) by {
            if cs[0].0 == c {
                assert(first_child(cs2, c) == Some(cs2[0].1));
                assert(first_child(cs, c) == Some(cs[0].1));
            } else {
                assert(first_child(cs2, c) == first_child(tail2, c));
                assert(first_child(cs, c) == first_child(cs.drop_first(), c));
            }
        }
    }
}

proof fn lemma_first_child_push(cs: Seq<(char, Trie)>, c: char, sub: Trie)
    requires
        forall|i: int| 0 <= i < cs.len() ==> (#[trigger] cs[i]).0 != c,
    ensures
        first_child(cs.push((c, sub)), c) == Some(sub),
        forall|x: char| x != c ==> first_child(cs.push((c, sub)), x) == first_child(cs, x),
    decreases cs.len(),
{
    let cp = cs.push((c, sub));
    if cs.len() == 0 {
        assert(cp[0] == (c, sub));
        assert(cp.drop_first() =~= Seq::<(char, Trie)>::empty());
        assert forall|x: char| x != c implies first_child(cp, x) == first_child(cs, x) by {
            assert(first_child(cp, x) == first_child(cp.drop_first(), x));
        }
    } else {
        assert(cp[0] == cs[0]);
        assert(cp.drop_first() =~= cs.drop_first().push((c, sub)));
        lemma_first_child_push(cs.drop_first(), c, sub);
        assert(cs[0].0 != c);
        assert(first_child(cp, c) == first_child(cs.drop_first().push((c, sub)), c));
        assert forall|x: char| x != c implies first_child(cp, x) == first_child(cs, x) by {
            if cs[0].0 == x {
                assert(first_child(cp, x) == Some(cp[0].1));
                assert(first_child(cs, x) == Some(cs[0].1));
            } else {
                assert(first_child(cp, x) == first_child(cs.drop_first().push((c, sub)), x));
                assert(first_child(cs, x) == first_child(cs.drop_first(), x));
            }
        }
    }
}

proof fn lemma_skip_cons(chars: Seq<char>, k: int)
    requires
        0 <= k < chars.len(),
    ensures
        chars.skip(k).len() == chars.len() - k,
        chars.skip(k)[0] == chars[k],
        chars.skip(k).drop_first() == chars.skip(k + 1),
{
    assert(chars.skip(k).drop_first() =~= chars.skip(k + 1));
}

proof fn lemma_cons_skip(chars: Seq<char>, k: int, w: Seq<char>)
    requires
        0 <= k < chars.len(),
        w.len() > 0,
        w[0] == chars[k],
        w.drop_first() == chars.skip(k + 1),
    ensures
        w == chars.skip(k),
{
    assert(w.drop_first() =~= w.subrange(1, w.len() as int));
    assert(w.drop_first().len() == w.len() - 1);
    assert(chars.skip(k + 1).len() == chars.len() - k - 1);
    assert(w.len() == chars.len() - k);
    assert forall|i: int| 0 <= i < w.len() implies w[i] == chars.skip(k)[i] by {
        assert(chars.skip(k)[i] == chars[k + i]);
        if i > 0 {
            assert(w[i] == w.subrange(1, w.len() as int)[i - 1]);
            assert(w.drop_first()[i - 1] == chars.skip(k + 1)[i - 1]);
            assert(chars.skip(k + 1)[i - 1] == chars[k + 1 + (i - 1)]);
        }
    }
    assert(w =~= chars.skip(k));
}

/// Finds the position of the first child of `children` labelled `c`.
fn find_child(children: &Vec<(char, Trie)>, c: char) -> (r: Option<usize>)
    ensures
        match r {
            Some(j) => j < children@.len() && children@[j as int].0 == c && (forall|i: int|
                0 <= i < j ==> (#[trigger] children@[i]).0 != c),
            None => forall|i: int| 0 <= i < children@.len() ==> (#[trigger] children@[i]).0 != c,
        },
{
    let mut j: usize = 0;
    while j < children.len()
        invariant
            j <= children@.len(),
            forall|i: int| 0 <= i < j ==> (#[trigger] children@[i]).0 != c,
        decreases children@.len() - j,
    {
        if children[j].0 == c {
            return Some(j);
        }
        j = j + 1;
    }
    None
}

/// Builds a chain of nodes that stores exactly the word `chars[k..]`.
fn new_chain(chars: &Vec<char>, k: usize) -> (t: Trie)
    requires
        k <= chars@.len(),
    ensures
        wf_trie(t),
        forall|w: Seq<char>| #[trigger] has_word(t, w) <==> w == chars@.skip(k as int),
    decreases chars@.len() - k,
{
    if k == chars.len() {
        let t = Trie { children: Vec::new(), terminal: true };
        proof {
            assert(chars@.skip(k as int) =~= Seq::<char>::empty());
            assert forall|w: Seq<char>| #[trigger] has_word(t, w) <==> w == chars@.skip(k as int) by {
                if w.len() == 0 {
                    assert(w =~= Seq::<char>::empty());
                } else {
                    assert(first_child(t.children@, w[0]) is None);
                }
            }
        }
        t
    } else {
        let c = chars[k];
        let sub = new_chain(chars, k + 1);
        let mut children: Vec<(char, Trie)> = Vec::new();
        children.push((c, sub));
        let t = Trie { children, terminal: false };
        proof {
            assert(t.children@[0] == (c, sub));
            lemma_skip_cons(chars@, k as int);
            assert forall|w: Seq<char>| #[trigger] has_word(t, w) <==> w == chars@.skip(k as int) by {
                if w.len() == 0 {
                    assert(chars@.skip(k as int).len() > 0);
                } else if w[0] == c {
                    assert(first_child(t.children@, w[0]) == Some(sub));
                    assert(has_word(t, w) == has_word(sub, w.drop_first()));
                    assert(has_word(sub, w.drop_first()) <==> w.drop_first() == chars@.skip(
                        k as int + 1));
                    if w.drop_first() == chars@.skip(k as int + 1) {
                        lemma_cons_skip(chars@, k as int, w);
                    }
                } else {
                    assert(t.children@.drop_first() =~= Seq::<(char, Trie)>::empty());
                    assert(first_child(t.children@, w[0]) == first_child(
                        Seq::<(char, Trie)>::empty(), w[0]));
                    assert(first_child(t.children@, w[0]) is None);
                    assert(w != chars@.skip(k as int));
                }
            }
        }
        t
    }
}

/// Inserts the word `chars[k..]` into the subtree rooted at `t`.
fn insert_rec(t: &mut Trie, chars: &Vec<char>, k: usize)
    requires
        wf_trie(*old(t)),
        k <= chars@.len(),
    ensures
        wf_trie(*final(t)),
        forall|w: Seq<char>|
            #[trigger] has_word(*final(t), w) <==> has_word(*old(t), w) || w == chars@.skip(
                k as int,
            ),
    decreases chars@.len() - k,
{
    if k == chars.len() {
        t.terminal = true;
        proof {
            assert(chars@.skip(k as int) =~= Seq::<char>::empty());
            assert forall|w: Seq<char>|
                #[trigger] has_word(*t, w) <==> has_word(*old(t), w) || w == chars@.skip(
                    k as int,
                ) by {
                if w.len() == 0 {
                    assert(w =~= Seq::<char>::empty());
                } else {
                    assert(t.children@ == old(t).children@);
                }
            }
        }
    } else {
        let c = chars[k];
        match find_child(&t.children, c) {
            Some(j) => {
                let ghost cs0 = t.children@;
                let (ch, mut sub) = t.children.remove(j);
                let ghost sub0 = sub;
                insert_rec(&mut sub, chars, k + 1);
                t.children.insert(j, (ch, sub));
                proof {
                    assert(t.children@ =~= cs0.update(j as int, (c, sub)));
                    assert(cs0[j as int] == (c, sub0));
                    lemma_first_child_at(cs0, j as int);
                    lemma_first_child_update(cs0, j as int, sub);
                    lemma_skip_cons(chars@, k as int);
                    // well-formedness is preserved: characters unchanged, the
                    // replaced subtree is well-formed
                    assert forall|i: int, j2: int|
                        0 <= i < j2 < t.children@.len() implies (#[trigger] t.children@[i]).0 != (
                        #[trigger] t.children@[j2]).0 by {
                        assert(t.children@[i].0 == cs0[i].0);
                        assert(t.children@[j2].0 == cs0[j2].0);
                    }
                    assert forall|i: int|
                        0 <= i < t.children@.len() implies wf_trie(
                        (#[trigger] t.children@[i]).1) by {
                        if i != j {
                            assert(t.children@[i] == cs0[i]);
                        }
                    }
                    assert forall|w: Seq<char>|
                        #[trigger] has_word(*t, w) <==> has_word(*old(t), w) || w == chars@.skip(
                            k as int,
                        ) by {
                        if w.len() == 0 {
                            assert(chars@.skip(k as int).len() > 0);
                        } else if w[0] == c {
                            assert(first_child(t.children@, c) == Some(sub));
                            assert(first_child(cs0, c) == Some(sub0));
                            assert(has_word(*t, w) == has_word(sub, w.drop_first()));
                            assert(has_word(*old(t), w) == has_word(sub0, w.drop_first()));
                            assert(has_word(sub, w.drop_first()) <==> has_word(sub0, w.drop_first())
                                || w.drop_first() == chars@.skip(k as int + 1));
                            if w.drop_first() == chars@.skip(k as int + 1) {
                                lemma_cons_skip(chars@, k as int, w);
                            }
                        } else {
                            assert(first_child(t.children@, w[0]) == first_child(cs0, w[0]));
                            assert(w != chars@.skip(k as int));
                        }
                    }
                }
            },
            None => {
                let sub = new_chain(chars, k + 1);
                let ghost cs0 = t.children@;
                t.children.push((c, sub));
                proof {
                    lemma_first_child_push(cs0, c, sub);
                    lemma_skip_cons(chars@, k as int);
                    assert(t.children@ =~= cs0.push((c, sub)));
                    assert forall|i: int, j2: int|
                        0 <= i < j2 < t.children@.len() implies (#[trigger] t.children@[i]).0 != (
                        #[trigger] t.children@[j2]).0 by {
                        if j2 < cs0.len() {
                            assert(t.children@[i] == cs0[i]);
                            assert(t.children@[j2] == cs0[j2]);
                        } else {
                            assert(t.children@[i] == cs0[i]);
                            assert(t.children@[j2].0 == c);
                        }
                    }
                    assert forall|i: int|
                        0 <= i < t.children@.len() implies wf_trie(
                        (#[trigger] t.children@[i]).1) by {
                        if i < cs0.len() {
                            assert(t.children@[i] == cs0[i]);
                        } else {
                            assert(t.children@[i].1 == sub);
                        }
                    }
                    assert forall|w: Seq<char>|
                        #[trigger] has_word(*t, w) <==> has_word(*old(t), w) || w == chars@.skip(
                            k as int,
                        ) by {
                        if w.len() == 0 {
                            assert(chars@.skip(k as int).len() > 0);
                        } else if w[0] == c {
                            assert(first_child(t.children@, c) == Some(sub));
                            lemma_first_child_none(cs0, c);
                            assert(has_word(*t, w) == has_word(sub, w.drop_first()));
                            assert(!has_word(*old(t), w));
                            assert(has_word(sub, w.drop_first()) <==> w.drop_first()
                                == chars@.skip(k as int + 1));
                            if w.drop_first() == chars@.skip(k as int + 1) {
                                lemma_cons_skip(chars@, k as int, w);
                            }
                        } else {
                            assert(first_child(t.children@, w[0]) == first_child(cs0, w[0]));
                            assert(w != chars@.skip(k as int));
                        }
                    }
                }
            },
        }
    }
}

/// Walks `t` along `pchars[d..]` and returns the subtree at its end, or
/// `None` if the path breaks off.
fn subtrie_at<'a>(t: &'a Trie, pchars: &Vec<char>, d: usize) -> (r: Option<&'a Trie>)
    requires
        wf_trie(*t),
        d <= pchars@.len(),
    ensures
        match r {
            Some(sub) => wf_trie(*sub) && (forall|w: Seq<char>|
                #[trigger] has_word(*sub, w) <==> has_word(*t, pchars@.skip(d as int).add(w))),
            None => forall|w: Seq<char>|
                !(#[trigger] has_word(*t, w) && pchars@.skip(d as int).is_prefix_of(w)),
        },
    decreases pchars@.len() - d,
{
    if d == pchars.len() {
        proof {
            assert(pchars@.skip(d as int) =~= Seq::<char>::empty());
            assert forall|w: Seq<char>|
                #[trigger] has_word(*t, w) <==> has_word(*t, pchars@.skip(d as int).add(w)) by {
                assert(pchars@.skip(d as int).add(w) =~= w);
            }
        }
        Some(t)
    } else {
        let c = pchars[d];
        proof {
            lemma_skip_cons(pchars@, d as int);
        }
        match find_child(&t.children, c) {
            Some(j) => {
                proof {
                    lemma_first_child_at(t.children@, j as int);
                }
                let sub = &t.children[j].1;
                let r = subtrie_at(sub, pchars, d + 1);
                proof {
                    let p = pchars@.skip(d as int);
                    let p1 = pchars@.skip(d as int + 1);
                    match r {
                        Some(s2) => {
                            assert forall|w: Seq<char>|
                                #[trigger] has_word(*s2, w) <==> has_word(*t, p.add(w)) by {
                                assert(has_word(*s2, w) <==> has_word(*sub, p1.add(w)));
                                assert(p.add(w).len() > 0);
                                assert(p.add(w)[0] == c);
                                assert(p.add(w).drop_first() =~= p1.add(w));
                                assert(has_word(*t, p.add(w)) == has_word(*sub, p.add(
                                    w,
                                ).drop_first()));
                            }
                        },
                        None => {
                            assert forall|w: Seq<char>|
                                !(#[trigger] has_word(*t, w) && p.is_prefix_of(w)) by {
                                if has_word(*t, w) && p.is_prefix_of(w) {
                                    assert(w.len() >= p.len() > 0);
                                    assert(w[0] == w.subrange(0, p.len() as int)[0]);
                                    assert(w[0] == c);
                                    assert(has_word(*sub, w.drop_first()));
                                    assert(p1.is_prefix_of(w.drop_first())) by {
                                        assert(p1 =~= w.drop_first().subrange(
                                            0,
                                            p1.len() as int,
                                        ));
                                    }
                                }
                            }
                        },
                    }
                }
                r
            },
            None => {
                proof {
                    lemma_first_child_none(t.children@, c);
                    let p = pchars@.skip(d as int);
                    assert forall|w: Seq<char>|
                        !(#[trigger] has_word(*t, w) && p.is_prefix_of(w)) by {
                        if has_word(*t, w) && p.is_prefix_of(w) {
                            assert(w.len() >= p.len() > 0);
                            assert(w[0] == w.subrange(0, p.len() as int)[0]);
                            assert(w[0] == c);
                        }
                    }
                }
                None
            },
        }
    }
}

/// Collects every word stored in the subtree rooted at `t`: the empty word
/// if `t` is terminal, then the words through each child in order. The
/// result has no duplicates.
#[verifier::loop_isolation(false)]
#[verifier::rlimit(100)]
fn elements(t: &Trie) -> (r: Vec<String>)
    requires
        wf_trie(*t),
    ensures
        forall|i: int| 0 <= i < r@.len() ==> has_word(*t, (#[trigger] r@[i])@),
        forall|w: Seq<char>|
            #[trigger] has_word(*t, w) ==> exists|i: int|
                0 <= i < r@.len() && (#[trigger] r@[i])@ == w,
        forall|i1: int, i2: int| 0 <= i1 < i2 < r@.len() ==> (#[trigger] r@[i1])@ != (
        #[trigger] r@[i2])@,
    decreases *t,
{
    let mut out: Vec<String> = Vec::new();
    if t.terminal {
        out.push(String::new());
    }
    let ghost cs = t.children@;
    proof {
        assert forall|w: Seq<char>|
            #![trigger has_word(*t, w)]
            (has_word(*t, w) && w.len() == 0) implies (exists|i: int|
            0 <= i < out@.len() && (#[trigger] out@[i])@ == w) by {
            assert(w =~= Seq::<char>::empty());
            assert(out@[0]@ == w);
        }
    }
    let mut j: usize = 0;
    while j < t.children.len()
        invariant
            j <= cs.len(),
            forall|i: int| 0 <= i < out@.len() ==> has_word(*t, (#[trigger] out@[i])@),
            forall|i: int|
                0 <= i < out@.len() ==> ((#[trigger] out@[i])@.len() == 0 || exists|l: int|
                    0 <= l < j && (#[trigger] cs[l]).0 == out@[i]@[0]),
            forall|w: Seq<char>|
                #![trigger has_word(*t, w)]
                (has_word(*t, w) && (w.len() == 0 || exists|l: int|
                    0 <= l < j && (#[trigger] cs[l]).0 == w[0])) ==> exists|i: int|
                    0 <= i < out@.len() && (#[trigger] out@[i])@ == w,
            forall|i1: int, i2: int| 0 <= i1 < i2 < out@.len() ==> (#[trigger] out@[i1])@ != (
            #[trigger] out@[i2])@,
        decreases cs.len() - j,
    {
        let c = t.children[j].0;
        proof {
            assert(forall|i: int| 0 <= i < j ==> (#[trigger] cs[i]).0 != cs[j as int].0);
            lemma_first_child_at(cs, j as int);
        }
        let sub = elements(&t.children[j].1);
        let ghost base = out@;
        proof {
            assert(forall|i: int| 0 <= i < base.len() ==> has_word(*t, (#[trigger] base[i])@));
            assert(forall|i: int|
                0 <= i < base.len() ==> ((#[trigger] base[i])@.len() == 0 || exists|l: int|
                    0 <= l < j && (#[trigger] cs[l]).0 == base[i]@[0]));
            assert(forall|w: Seq<char>|
                #![trigger has_word(*t, w)]
                (has_word(*t, w) && (w.len() == 0 || exists|l: int|
                    0 <= l < j && (#[trigger] cs[l]).0 == w[0])) ==> exists|i: int|
                    0 <= i < base.len() && (#[trigger] base[i])@ == w);
            assert(forall|i1: int, i2: int|
                0 <= i1 < i2 < base.len() ==> (#[trigger] base[i1])@ != (#[trigger] base[i2])@);
        }
        let mut m: usize = 0;
        while m < sub.len()
            invariant
                m <= sub@.len(),
                out@.len() == base.len() + m,
                forall|i: int| 0 <= i < base.len() ==> out@[i] == base[i],
                forall|i: int|
                    0 <= i < m ==> (#[trigger] out@[base.len() + i])@ == seq![c].add(sub@[i]@),
            decreases sub@.len() - m,
        {
            let mut sres = String::new();
            push_char(&mut sres, c);
            sres.append(sub[m].as_str());
            proof {
                assert(sres@ =~= seq![c].add(sub@[m as int]@));
            }
            out.push(sres);
            m = m + 1;
        }
        proof {
            let csub = t.children@[j as int].1;
            // soundness and first-character bookkeeping for the new entries
            assert forall|i: int| 0 <= i < out@.len() implies has_word(*t, (#[trigger] out@[i])@)
                && (out@[i]@.len() == 0 || exists|l: int|
                0 <= l < j + 1 && (#[trigger] cs[l]).0 == out@[i]@[0]) by {
                if i < base.len() {
                    assert(out@[i] == base[i]);
                } else {
                    let w = out@[i]@;
                    assert(out@[base.len() + (i - base.len())]@ == seq![c].add(
                        sub@[i - base.len()]@));
                    assert(w == seq![c].add(sub@[i - base.len()]@));
                    assert(w.len() > 0 && w[0] == c);
                    assert(w.drop_first() =~= sub@[i - base.len()]@);
                    assert(has_word(csub, w.drop_first()));
                    assert(first_child(cs, c) == Some(csub));
                    assert(has_word(*t, w) == has_word(csub, w.drop_first()));
                    assert((#[trigger] cs[j as int]).0 == w[0]);
                }
            }
            // completeness for words whose first character is among the
            // first j + 1 children
            assert forall|w: Seq<char>|
                (has_word(*t, w) && (w.len() == 0 || exists|l: int|
                    0 <= l < j + 1 && (#[trigger] cs[l]).0 == w[0])) implies exists|i: int|
                0 <= i < out@.len() && (#[trigger] out@[i])@ == w by {
                if w.len() == 0 || exists|l: int| 0 <= l < j && (#[trigger] cs[l]).0 == w[0] {
                    let i = choose|i: int| 0 <= i < base.len() && (#[trigger] base[i])@ == w;
                    assert(out@[i]@ == w);
                } else {
                    assert(w.len() > 0 && w[0] == c);
                    assert(first_child(cs, c) == Some(csub));
                    assert(has_word(csub, w.drop_first()));
                    let mi = choose|mi: int|
                        0 <= mi < sub@.len() && (#[trigger] sub@[mi])@ == w.drop_first();
                    assert(out@[base.len() + mi]@ == seq![c].add(w.drop_first()));
                    assert(seq![c].add(w.drop_first()) =~= w);
                }
            }
            // distinctness
            assert forall|i1: int, i2: int|
                0 <= i1 < i2 < out@.len() implies (#[trigger] out@[i1])@ != (
            #[trigger] out@[i2])@ by {
                if i2 < base.len() {
                    assert(out@[i1] == base[i1]);
                    assert(out@[i2] == base[i2]);
                    assert(base[i1]@ != base[i2]@);
                } else if i1 < base.len() {
                    let w2 = out@[i2]@;
                    assert(out@[base.len() + (i2 - base.len())]@ == seq![c].add(
                        sub@[i2 - base.len()]@));
                    assert(w2 == seq![c].add(sub@[i2 - base.len()]@));
                    assert(w2.len() > 0 && w2[0] == c);
                    let w1 = out@[i1]@;
                    assert(out@[i1] == base[i1]);
                    if w1.len() > 0 {
                        let l = choose|l: int| 0 <= l < j && (#[trigger] cs[l]).0 == w1[0];
                        assert(cs[l].0 != cs[j as int].0);
                    }
                } else {
                    let s1 = sub@[i1 - base.len()]@;
                    let s2 = sub@[i2 - base.len()]@;
                    assert(out@[base.len() + (i1 - base.len())]@ == seq![c].add(s1));
                    assert(out@[base.len() + (i2 - base.len())]@ == seq![c].add(s2));
                    assert(out@[i1]@ == seq![c].add(s1));
                    assert(out@[i2]@ == seq![c].add(s2));
                    assert(s1 != s2);
                    assert(seq![c].add(s1).drop_first() =~= s1);
                    assert(seq![c].add(s2).drop_first() =~= s2);
                }
            }
        }
        j = j + 1;
    }
    proof {
        assert forall|w: Seq<char>| #[trigger] has_word(*t, w) implies exists|i: int|
            0 <= i < out@.len() && (#[trigger] out@[i])@ == w by {
            if w.len() > 0 {
                assert(first_child(cs, w[0]) is Some);
                lemma_first_child_some_position(cs, w[0]);
            }
        }
    }
    out
}

/// If some child matches `c`, a child at some position carries `c`.
proof fn lemma_first_child_some_position(cs: Seq<(char, Trie)>, c: char)
    requires
        first_child(cs, c) is Some,
    ensures
        exists|l: int| 0 <= l < cs.len() && (#[trigger] cs[l]).0 == c,
    decreases cs.len(),
{
    if cs.len() > 0 {
        if cs[0].0 == c {
            assert(cs[0].0 == c);
        } else {
            lemma_first_child_some_position(cs.drop_first(), c);
            let l = choose|l: int| 0 <= l < cs.drop_first().len() && (#[trigger] cs.drop_first()[l]).0 == c;
            assert(cs[l + 1].0 == c);
        }
    }
}

impl Trie {
    fn new() -> (t: Trie)
        ensures
            wf_trie(t),
            forall|w: Seq<char>| !(#[trigger] has_word(t, w)),
    {
        let t = Trie { children: Vec::new(), terminal: false };
        proof {
            assert forall|w: Seq<char>| !(#[trigger] has_word(t, w)) by {
                if w.len() > 0 {
                    assert(first_child(t.children@, w[0]) is None);
                }
            }
        }
        t
    }

    fn insert(&mut self, text: String)
        requires
            wf_trie(*old(self)),
        ensures
            wf_trie(*final(self)),
            forall|w: Seq<char>|
                #[trigger] has_word(*final(self), w) <==> has_word(*old(self), w) || w == text@,
    {
        let chars = str_chars(text.as_str());
        insert_rec(self, &chars, 0);
        proof {
            assert(chars@.skip(0) =~= text@);
        }
    }

    /// Returns every stored word that starts with `prefix`, each one the
    /// concatenation of `prefix` and the path below the prefix node.
    #[verifier::loop_isolation(false)]
    fn find(&self, prefix: String) -> (r: Vec<String>)
        requires
            wf_trie(*self),
        ensures
            forall|i: int|
                0 <= i < r@.len() ==> has_word(*self, (#[trigger] r@[i])@) && prefix@.is_prefix_of(
                    r@[i]@,
                ),
            forall|w: Seq<char>|
                has_word(*self, w) && #[trigger] prefix@.is_prefix_of(w) ==> exists|i: int|
                    0 <= i < r@.len() && (#[trigger] r@[i])@ == w,
            forall|i1: int, i2: int| 0 <= i1 < i2 < r@.len() ==> (#[trigger] r@[i1])@ != (
            #[trigger] r@[i2])@,
    {
        let pchars = str_chars(prefix.as_str());
        proof {
            assert(pchars@.skip(0) =~= prefix@);
        }
        match subtrie_at(self, &pchars, 0) {
            None => {
                Vec::new()
            },
            Some(sub) => {
                let suffixes = elements(sub);
                let mut r: Vec<String> = Vec::new();
                let mut m: usize = 0;
                while m < suffixes.len()
                    invariant
                        m <= suffixes@.len(),
                        r@.len() == m,
                        forall|i: int|
                            0 <= i < m ==> (#[trigger] r@[i])@ == prefix@.add(suffixes@[i]@),
                    decreases suffixes@.len() - m,
                {
                    let mut s = prefix.clone();
                    s.append(suffixes[m].as_str());
                    r.push(s);
                    m = m + 1;
                }
                proof {
                    assert forall|i: int|
                        0 <= i < r@.len() implies has_word(*self, (#[trigger] r@[i])@)
                        && prefix@.is_prefix_of(r@[i]@) by {
                        let s = suffixes@[i]@;
                        assert(has_word(*sub, s));
                        assert(r@[i]@ == prefix@.add(s));
                        assert(has_word(*self, prefix@.add(s)));
                        assert(prefix@ =~= prefix@.add(s).subrange(0, prefix@.len() as int));
                    }
                    assert forall|w: Seq<char>|
                        has_word(*self, w) && #[trigger] prefix@.is_prefix_of(w) implies exists|
                        i: int,
                    |
                        0 <= i < r@.len() && (#[trigger] r@[i])@ == w by {
                        let s0 = w.skip(prefix@.len() as int);
                        assert(prefix@.add(s0) =~= w);
                        assert(has_word(*sub, s0));
                        let mi = choose|mi: int|
                            0 <= mi < suffixes@.len() && (#[trigger] suffixes@[mi])@ == s0;
                        assert(r@[mi]@ == prefix@.add(s0));
                    }
                    assert forall|i1: int, i2: int|
                        0 <= i1 < i2 < r@.len() implies (#[trigger] r@[i1])@ != (
                    #[trigger] r@[i2])@ by {
                        let s1 = suffixes@[i1]@;
                        let s2 = suffixes@[i2]@;
                        assert(s1 != s2);
                        assert(prefix@.add(s1).skip(prefix@.len() as int) =~= s1);
                        assert(prefix@.add(s2).skip(prefix@.len() as int) =~= s2);
                    }
                }
                r
            },
        }
    }
}

/// The subset of `words` that start with `prefix`.
pub open spec fn matching(words: Set<Seq<char>>, prefix: Seq<char>) -> Set<Seq<char>> {
    Set::new(|w: Seq<char>| words.contains(w) && prefix.is_prefix_of(w))
}

/// An autocomplete engine: a set of words stored in a prefix tree, with
/// insertion and prefix search.
pub struct Autocomplete {
    trie: Trie,
}

impl Autocomplete {
    /// The set of stored words, as character sequences.
    pub closed spec fn words(self) -> Set<Seq<char>> {
        Set::new(|w: Seq<char>| has_word(self.trie, w))
    }

    /// Well-formedness of the underlying tree; established by `new` and
    /// preserved by every method.
    pub closed spec fn wf(self) -> bool {
        wf_trie(self.trie)
    }

    /// Creates an empty index.
    pub fn new() -> (a: Autocomplete)
        ensures
            a.wf(),
            a.words() == Set::<Seq<char>>::empty(),
    {
        let a = Autocomplete { trie: Trie::new() };
        proof {
            assert(a.words() =~= Set::<Seq<char>>::empty());
        }
        a
    }

    /// Inserts every one of `words` into the index. The stored set grows by
    /// exactly those words; inserting a word that is already stored changes
    /// nothing.
    #[verifier::loop_isolation(false)]
    pub fn insert_words(&mut self, words: Vec<String>)
        requires
            old(self).wf(),
        ensures
            final(self).wf(),
            final(self).words() == old(self).words().union(
                words@.map_values(|s: String| s@).to_set(),
            ),
    {
        let ghost mapped = words@.map_values(|s: String| s@);
        let n = words.len();
        let mut i: usize = 0;
        while i < n
            invariant
                i <= n,
                self.wf(),
                self.words() == old(self).words().union(mapped.take(i as int).to_set()),
            decreases n - i,
        {
            let w = words[i].clone();
            let ghost before = self.words();
            self.trie.insert(w);
            proof {
                assert(self.words() =~= before.insert(words@[i as int]@));
                assert(mapped[i as int] == words@[i as int]@);
                assert forall|x: Seq<char>|
                    #[trigger] mapped.take(i + 1).contains(x) <==> mapped.take(i as int).contains(x)
                        || x == mapped[i as int] by {
                    if mapped.take(i + 1).contains(x) {
                        let idx = choose|idx: int|
                            0 <= idx < i + 1 && #[trigger] mapped.take(i + 1)[idx] == x;
                        if idx < i {
                            assert(mapped.take(i as int)[idx] == x);
                        }
                    }
                    if mapped.take(i as int).contains(x) {
                        let idx = choose|idx: int|
                            0 <= idx < i && #[trigger] mapped.take(i as int)[idx] == x;
                        assert(mapped.take(i + 1)[idx] == x);
                    }
                    if x == mapped[i as int] {
                        assert(mapped.take(i + 1)[i as int] == x);
                    }
                }
                assert(old(self).words().union(mapped.take(i + 1).to_set()) =~= before.insert(
                    words@[i as int]@,
                ));
            }
            i = i + 1;
        }
        proof {
            assert(mapped.take(n as int) =~= mapped);
        }
    }

    /// Returns every stored word that starts with `prefix`: exactly the
    /// members of `matching(self.words(), prefix@)`, once each, in an
    /// unspecified order.
    pub fn find_words(&self, prefix: String) -> (r: Vec<String>)
        requires
            self.wf(),
        ensures
            forall|i: int|
                0 <= i < r@.len() ==> matching(self.words(), prefix@).contains(
                    (#[trigger] r@[i])@,
                ),
            forall|w: Seq<char>|
                #[trigger] matching(self.words(), prefix@).contains(w) ==> exists|i: int|
                    0 <= i < r@.len() && (#[trigger] r@[i])@ == w,
            forall|i1: int, i2: int| 0 <= i1 < i2 < r@.len() ==> (#[trigger] r@[i1])@ != (
            #[trigger] r@[i2])@,
    {
        self.trie.find(prefix)
    }
}

impl Default for Autocomplete {
    /// An empty index.
    fn default() -> (a: Autocomplete)
        ensures
            a.wf(),
            a.words() == Set::<Seq<char>>::empty(),
    {
        Autocomplete::new()
    }
}

/// Round trip: searching with the empty prefix matches exactly the stored
/// set, so after inserting the words of a set, the empty search returns
/// that whole set.
pub proof fn lemma_find_all(words: Set<Seq<char>>)
    ensures
        matching(words, Seq::<char>::empty()) == words,
{
    assert forall|w: Seq<char>| #[trigger] words.contains(w) implies matching(
        words,
        Seq::<char>::empty(),
    ).contains(w) by {
        assert(Seq::<char>::empty() =~= w.subrange(0, 0));
    }
    assert(matching(words, Seq::<char>::empty()) =~= words);
}

/// Prefix monotonicity: if `p1` is a prefix of `p2`, every word matching
/// `p2` also matches `p1`.
pub proof fn lemma_prefix_monotone(words: Set<Seq<char>>, p1: Seq<char>, p2: Seq<char>)
    requires
        p1.is_prefix_of(p2),
    ensures
        matching(words, p2).subset_of(matching(words, p1)),
{
    assert forall|w: Seq<char>| #[trigger] matching(words, p2).contains(w) implies matching(
        words,
        p1,
    ).contains(w) by {
        assert(p1 =~= w.subrange(0, p1.len() as int));
    }
}

/// Idempotent insert: adding the same word to the stored set twice leaves
/// the same set as adding it once, so a repeated insertion changes no
/// search result.
pub proof fn lemma_insert_idempotent(words: Set<Seq<char>>, w: Seq<char>)
    ensures
        words.insert(w).insert(w) == words.insert(w),
{
    assert(words.insert(w).insert(w) =~= words.insert(w));
}

} // verus!
