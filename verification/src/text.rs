//! Orders on text and on sequences of text.
//!
//! Rust orders `str` values by their UTF-8 bytes, which agrees with the
//! lexicographic order of their Unicode scalar values; the specifications
//! below state the latter.
use vstd::prelude::*;
use vstd::string::*;

verus! {

/// Strict order on characters, by Unicode scalar value.
pub open spec fn char_before(a: char, b: char) -> bool {
    (a as int) < (b as int)
}

/// Strict lexicographic order on character sequences.
pub open spec fn text_before(a: Seq<char>, b: Seq<char>) -> bool
    decreases a.len(),
{
    if a.len() == 0 {
        b.len() > 0
    } else if b.len() == 0 {
        false
    } else if a[0] != b[0] {
        char_before(a[0], b[0])
    } else {
        text_before(a.drop_first(), b.drop_first())
    }
}

pub proof fn lemma_text_irreflexive(a: Seq<char>)
    ensures
        !text_before(a, a),
    decreases a.len(),
{
    if a.len() > 0 {
        lemma_text_irreflexive(a.drop_first());
    }
}

pub proof fn lemma_text_asymmetric(a: Seq<char>, b: Seq<char>)
    ensures
        text_before(a, b) ==> !text_before(b, a),
    decreases a.len(),
{
    if a.len() > 0 && b.len() > 0 && a[0] == b[0] {
        lemma_text_asymmetric(a.drop_first(), b.drop_first());
    }
}

pub proof fn lemma_text_transitive(a: Seq<char>, b: Seq<char>, c: Seq<char>)
    ensures
        text_before(a, b) && text_before(b, c) ==> text_before(a, c),
    decreases a.len(),
{
    if a.len() > 0 && b.len() > 0 && c.len() > 0 {
        lemma_text_transitive(a.drop_first(), b.drop_first(), c.drop_first());
    }
}

pub proof fn lemma_text_total(a: Seq<char>, b: Seq<char>)
    ensures
        a != b ==> text_before(a, b) || text_before(b, a),
    decreases a.len(),
{
    if a.len() > 0 && b.len() > 0 && a[0] == b[0] {
        lemma_text_total(a.drop_first(), b.drop_first());
        if a.drop_first() == b.drop_first() {
            assert(a =~= seq![a[0]] + a.drop_first());
            assert(b =~= seq![b[0]] + b.drop_first());
        }
    } else if a.len() == 0 && b.len() == 0 {
        assert(a =~= b);
    } else if a.len() > 0 && b.len() > 0 {
        assert((a[0] as int) != (b[0] as int));
    }
}

/// The three outcomes of comparing two values in a total order.
#[derive(Debug, Clone, Copy, PartialEq, Eq)]
pub enum Precedence {
    Before,
    Same,
    After,
}

/// Compares two texts lexicographically by character.
pub fn compare_text(a: &str, b: &str) -> (r: Precedence)
    ensures
        (r == Precedence::Before) == text_before(a@, b@),
        (r == Precedence::Same) == (a@ == b@),
        (r == Precedence::After) == text_before(b@, a@),
{
    proof {
        lemma_text_irreflexive(a@);
        lemma_text_asymmetric(a@, b@);
        lemma_text_total(a@, b@);
    }
    let la = a.unicode_len();
    let lb = b.unicode_len();
    let mut i: usize = 0;
    assert(a@.skip(0) =~= a@);
    assert(b@.skip(0) =~= b@);
    while i < la && i < lb
        invariant
            la == a@.len(),
            lb == b@.len(),
            i <= la,
            i <= lb,
            text_before(a@, b@) == text_before(a@.skip(i as int), b@.skip(i as int)),
            text_before(b@, a@) == text_before(b@.skip(i as int), a@.skip(i as int)),
            (a@ == b@) == (a@.skip(i as int) == b@.skip(i as int)),
        decreases la - i,
    {
        let ca = a.get_char(i);
        let cb = b.get_char(i);
        let ghost sa = a@.skip(i as int);
        let ghost sb = b@.skip(i as int);
        assert(sa[0] == ca);
        assert(sb[0] == cb);
        if ca != cb {
            assert(sa != sb);
            if (ca as u32) < (cb as u32) {
                return Precedence::Before;
            } else {
                return Precedence::After;
            }
        }
        assert(sa.drop_first() =~= a@.skip(i + 1));
        assert(sb.drop_first() =~= b@.skip(i + 1));
        assert(sa =~= seq![ca] + sa.drop_first());
        assert(sb =~= seq![cb] + sb.drop_first());
        i = i + 1;
    }
    if i == la && i == lb {
        assert(a@.skip(i as int) =~= b@.skip(i as int));
        Precedence::Same
    } else if i == la {
        assert(a@.skip(i as int).len() == 0);
        Precedence::Before
    } else {
        assert(b@.skip(i as int).len() == 0);
        Precedence::After
    }
}

/// Strict lexicographic order on sequences of texts.
pub open spec fn texts_before(a: Seq<Seq<char>>, b: Seq<Seq<char>>) -> bool
    decreases a.len(),
{
    if a.len() == 0 {
        b.len() > 0
    } else if b.len() == 0 {
        false
    } else if a[0] != b[0] {
        text_before(a[0], b[0])
    } else {
        texts_before(a.drop_first(), b.drop_first())
    }
}

pub proof fn lemma_texts_irreflexive(a: Seq<Seq<char>>)
    ensures
        !texts_before(a, a),
    decreases a.len(),
{
    if a.len() > 0 {
        lemma_texts_irreflexive(a.drop_first());
    }
}

pub proof fn lemma_texts_asymmetric(a: Seq<Seq<char>>, b: Seq<Seq<char>>)
    ensures
        texts_before(a, b) ==> !texts_before(b, a),
    decreases a.len(),
{
    if a.len() > 0 && b.len() > 0 {
        lemma_text_asymmetric(a[0], b[0]);
        if a[0] == b[0] {
            lemma_texts_asymmetric(a.drop_first(), b.drop_first());
        }
    }
}

pub proof fn lemma_texts_transitive(a: Seq<Seq<char>>, b: Seq<Seq<char>>, c: Seq<Seq<char>>)
    ensures
        texts_before(a, b) && texts_before(b, c) ==> texts_before(a, c),
    decreases a.len(),
{
    if a.len() > 0 && b.len() > 0 && c.len() > 0 {
        lemma_text_transitive(a[0], b[0], c[0]);
        lemma_text_asymmetric(a[0], b[0]);
        lemma_text_asymmetric(b[0], c[0]);
        lemma_texts_transitive(a.drop_first(), b.drop_first(), c.drop_first());
    }
}

pub proof fn lemma_texts_total(a: Seq<Seq<char>>, b: Seq<Seq<char>>)
    ensures
        a != b ==> texts_before(a, b) || texts_before(b, a),
    decreases a.len(),
{
    if a.len() > 0 && b.len() > 0 {
        lemma_text_total(a[0], b[0]);
        if a[0] == b[0] {
            lemma_texts_total(a.drop_first(), b.drop_first());
            if a.drop_first() == b.drop_first() {
                assert(a =~= seq![a[0]] + a.drop_first());
                assert(b =~= seq![b[0]] + b.drop_first());
            }
        }
    } else if a.len() == 0 && b.len() == 0 {
        assert(a =~= b);
    }
}

/// The views of a vector of strings.
pub open spec fn texts_of(v: Seq<String>) -> Seq<Seq<char>> {
    v.map_values(|s: String| s@)
}

/// Compares two sequences of strings lexicographically.
pub fn compare_texts(a: &Vec<String>, b: &Vec<String>) -> (r: Precedence)
    ensures
        (r == Precedence::Before) == texts_before(texts_of(a@), texts_of(b@)),
        (r == Precedence::Same) == (texts_of(a@) == texts_of(b@)),
        (r == Precedence::After) == texts_before(texts_of(b@), texts_of(a@)),
{
    let ghost ta = texts_of(a@);
    let ghost tb = texts_of(b@);
    proof {
        lemma_texts_irreflexive(ta);
        lemma_texts_asymmetric(ta, tb);
        lemma_texts_total(ta, tb);
    }
    let la = a.len();
    let lb = b.len();
    let mut i: usize = 0;
    assert(ta.skip(0) =~= ta);
    assert(tb.skip(0) =~= tb);
    while i < la && i < lb
        invariant
            la == a@.len(),
            lb == b@.len(),
            ta == texts_of(a@),
            tb == texts_of(b@),
            i <= la,
            i <= lb,
            texts_before(ta, tb) == texts_before(ta.skip(i as int), tb.skip(i as int)),
            texts_before(tb, ta) == texts_before(tb.skip(i as int), ta.skip(i as int)),
            (ta == tb) == (ta.skip(i as int) == tb.skip(i as int)),
        decreases la - i,
    {
        let ghost sa = ta.skip(i as int);
        let ghost sb = tb.skip(i as int);
        let c = compare_text(a[i].as_str(), b[i].as_str());
        assert(sa[0] == a@[i as int]@);
        assert(sb[0] == b@[i as int]@);
        match c {
            Precedence::Before => {
                return Precedence::Before;
            },
            Precedence::After => {
                return Precedence::After;
            },
            Precedence::Same => {},
        }
        assert(sa.drop_first() =~= ta.skip(i + 1));
        assert(sb.drop_first() =~= tb.skip(i + 1));
        assert(sa =~= seq![sa[0]] + sa.drop_first());
        assert(sb =~= seq![sb[0]] + sb.drop_first());
        i = i + 1;
    }
    if i == la && i == lb {
        assert(ta.skip(i as int) =~= tb.skip(i as int));
        Precedence::Same
    } else if i == la {
        assert(ta.skip(i as int).len() == 0);
        Precedence::Before
    } else {
        assert(tb.skip(i as int).len() == 0);
        Precedence::After
    }
}

} // verus!
