//! Letter bags: a word fits a bag when the bag holds every letter of the word,
//! counted with multiplicity; consuming the word takes one matching letter out
//! of the bag for each letter of the word, first occurrence first.
use vstd::multiset::Multiset;
use vstd::prelude::*;

verus! {

broadcast use {vstd::seq_lib::group_to_multiset_ensures, vstd::multiset::group_multiset_axioms};

/// `word` can be spelled from `bag`, each letter of the bag used at most once.
pub open spec fn fits(word: Seq<char>, bag: Seq<char>) -> bool {
    word.to_multiset().subset_of(bag.to_multiset())
}

/// `bag` with its first occurrence of `c` taken out (unchanged when `c` is absent).
pub open spec fn remove_one(bag: Seq<char>, c: char) -> Seq<char>
    decreases bag.len(),
{
    if bag.len() == 0 {
        bag
    } else if bag[0] == c {
        bag.drop_first()
    } else {
        seq![bag[0]] + remove_one(bag.drop_first(), c)
    }
}

/// `bag` once one occurrence of each letter of `word` has been taken out, in
/// the order of the word.
pub open spec fn consume(bag: Seq<char>, word: Seq<char>) -> Seq<char>
    decreases word.len(),
{
    if word.len() == 0 {
        bag
    } else {
        remove_one(consume(bag, word.drop_last()), word.last())
    }
}

/// Removing the element at the first index holding `c` is `remove_one`.
pub proof fn lemma_remove_one_index(bag: Seq<char>, c: char, i: int)
    requires
        0 <= i < bag.len(),
        bag[i] == c,
        forall|j: int| 0 <= j < i ==> bag[j] != c,
    ensures
        remove_one(bag, c) == bag.remove(i),
    decreases bag.len(),
{
    if i > 0 {
        lemma_remove_one_index(bag.drop_first(), c, i - 1);
        assert(seq![bag[0]] + bag.drop_first().remove(i - 1) =~= bag.remove(i));
    } else {
        assert(bag.drop_first() =~= bag.remove(0));
    }
}

/// A bag without `c` is left as it is by `remove_one`.
pub proof fn lemma_remove_one_absent(bag: Seq<char>, c: char)
    requires
        forall|j: int| 0 <= j < bag.len() ==> bag[j] != c,
    ensures
        remove_one(bag, c) == bag,
    decreases bag.len(),
{
    if bag.len() > 0 {
        lemma_remove_one_absent(bag.drop_first(), c);
        assert(seq![bag[0]] + bag.drop_first() =~= bag);
    }
}

/// As a multiset, `remove_one` takes out one `c` (none when there is none).
pub proof fn lemma_remove_one_multiset(bag: Seq<char>, c: char)
    ensures
        remove_one(bag, c).to_multiset() =~= bag.to_multiset().remove(c),
    decreases bag.len(),
{
    if exists|i: int| 0 <= i < bag.len() && bag[i] == c {
        let k = choose|i: int| 0 <= i < bag.len() && bag[i] == c;
        let i = first_index_at_most(bag, c, k);
        lemma_remove_one_index(bag, c, i);
    } else {
        lemma_remove_one_absent(bag, c);
        assert(!bag.contains(c));
        assert(bag.to_multiset().count(c) == 0);
    }
}

/// The first index holding `c`, given one at `k`.
proof fn first_index_at_most(bag: Seq<char>, c: char, k: int) -> (i: int)
    requires
        0 <= k < bag.len(),
        bag[k] == c,
    ensures
        0 <= i <= k,
        bag[i] == c,
        forall|j: int| 0 <= j < i ==> bag[j] != c,
    decreases k,
{
    if exists|j: int| 0 <= j < k && bag[j] == c {
        let j = choose|j: int| 0 <= j < k && bag[j] == c;
        first_index_at_most(bag, c, j)
    } else {
        k
    }
}

/// As a multiset, `consume` subtracts the word's letters from the bag.
pub proof fn lemma_consume_multiset(bag: Seq<char>, word: Seq<char>)
    ensures
        consume(bag, word).to_multiset() =~= bag.to_multiset().sub(word.to_multiset()),
    decreases word.len(),
{
    if word.len() > 0 {
        let rest = word.drop_last();
        lemma_consume_multiset(bag, rest);
        lemma_remove_one_multiset(consume(bag, rest), word.last());
        assert(rest.push(word.last()) =~= word);
    } else {
        assert(word.to_multiset() =~= Multiset::empty());
    }
}

/// `consume` never lengthens the bag, and shortens it by the word's length
/// when the word fits.
pub proof fn lemma_consume_len(bag: Seq<char>, word: Seq<char>)
    requires
        fits(word, bag),
    ensures
        consume(bag, word).len() + word.len() == bag.len(),
{
    lemma_consume_multiset(bag, word);
    lemma_round_trip(bag, word);
    let m = consume(bag, word).to_multiset();
    assert(m.add(word.to_multiset()).len() == m.len() + word.to_multiset().len());
}

/// The letters of a prefix of `s` are among the letters of `s`.
pub proof fn lemma_prefix_multiset(s: Seq<char>, j: int)
    requires
        0 <= j <= s.len(),
    ensures
        s.take(j).to_multiset().subset_of(s.to_multiset()),
    decreases s.len() - j,
{
    if j < s.len() {
        lemma_prefix_multiset(s, j + 1);
        assert(s.take(j + 1) =~= s.take(j).push(s[j]));
    } else {
        assert(s.take(j) =~= s);
    }
}

/// A word can always be spelled from its own letters.
pub proof fn lemma_fits_own_letters(word: Seq<char>)
    ensures
        fits(word, word),
{
}

/// A word still fits its own letters once one more letter is added to them.
pub proof fn lemma_fits_extra_letter(word: Seq<char>, x: char)
    ensures
        fits(word, word.push(x)),
{
}

/// A word with one more letter appended never fits the letters of the word
/// alone.
pub proof fn lemma_no_fit_with_extra_letter(word: Seq<char>, x: char)
    ensures
        !fits(word.push(x), word),
{
    assert(word.push(x).to_multiset().count(x) == word.to_multiset().count(x) + 1);
}

/// Consuming a word that fits and then putting its letters back gives back
/// the bag it started from.
pub proof fn lemma_round_trip(bag: Seq<char>, word: Seq<char>)
    requires
        fits(word, bag),
    ensures
        consume(bag, word).to_multiset().add(word.to_multiset()) =~= bag.to_multiset(),
{
    lemma_consume_multiset(bag, word);
}

/// One more letter still fits exactly when the bag left after the earlier
/// letters holds it.
pub proof fn lemma_fits_step(bag: Seq<char>, p: Seq<char>, c: char)
    requires
        fits(p, bag),
    ensures
        consume(bag, p).contains(c) <==> fits(p.push(c), bag),
{
    lemma_consume_multiset(bag, p);
    let m = p.push(c).to_multiset();
    assert(m =~= p.to_multiset().insert(c));
    if consume(bag, p).contains(c) {
        assert(consume(bag, p).to_multiset().count(c) > 0);
        assert forall|x: char| m.count(x) <= bag.to_multiset().count(x) by {
            if x != c {
                assert(m.count(x) == p.to_multiset().count(x));
            }
        }
    } else {
        assert(consume(bag, p).to_multiset().count(c) == 0);
        assert(m.count(c) > bag.to_multiset().count(c));
    }
}

/// A word whose prefix does not fit does not fit either.
pub proof fn lemma_no_fit_prefix(word: Seq<char>, bag: Seq<char>, i: int)
    requires
        0 <= i <= word.len(),
        !fits(word.take(i), bag),
    ensures
        !fits(word, bag),
{
    lemma_prefix_multiset(word, i);
    if fits(word, bag) {
        assert(word.take(i).to_multiset().subset_of(bag.to_multiset()));
    }
}

/// Taking out two letters gives the same bag in either order.
pub proof fn lemma_remove_one_commutes(bag: Seq<char>, c: char, d: char)
    ensures
        remove_one(remove_one(bag, c), d) == remove_one(remove_one(bag, d), c),
    decreases bag.len(),
{
    if bag.len() > 0 && bag[0] != c && bag[0] != d {
        let rest = bag.drop_first();
        lemma_remove_one_commutes(rest, c, d);
        assert((seq![bag[0]] + remove_one(rest, c)).drop_first() =~= remove_one(rest, c));
        assert((seq![bag[0]] + remove_one(rest, d)).drop_first() =~= remove_one(rest, d));
    } else if bag.len() > 0 && bag[0] == c && bag[0] != d {
        assert((seq![bag[0]] + remove_one(bag.drop_first(), d)).drop_first() =~= remove_one(
            bag.drop_first(),
            d,
        ));
    } else if bag.len() > 0 && bag[0] == d && bag[0] != c {
        assert((seq![bag[0]] + remove_one(bag.drop_first(), c)).drop_first() =~= remove_one(
            bag.drop_first(),
            c,
        ));
    }
}

/// One letter taken out before a word is consumed is the same as after.
pub proof fn lemma_remove_one_then_consume(bag: Seq<char>, c: char, word: Seq<char>)
    ensures
        consume(remove_one(bag, c), word) == remove_one(consume(bag, word), c),
    decreases word.len(),
{
    if word.len() > 0 {
        lemma_remove_one_then_consume(bag, c, word.drop_last());
        lemma_remove_one_commutes(consume(bag, word.drop_last()), c, word.last());
    }
}

/// Consuming two words one after the other is consuming them together.
pub proof fn lemma_consume_concat(bag: Seq<char>, u: Seq<char>, v: Seq<char>)
    ensures
        consume(bag, u + v) == consume(consume(bag, u), v),
    decreases v.len(),
{
    if v.len() == 0 {
        assert(u + v =~= u);
    } else {
        lemma_consume_concat(bag, u, v.drop_last());
        assert((u + v).drop_last() =~= u + v.drop_last());
        assert((u + v).last() == v.last());
    }
}

/// The bag left by consuming a word depends on the word's letters alone, not
/// on their order.
pub proof fn lemma_consume_permutation(bag: Seq<char>, u: Seq<char>, v: Seq<char>)
    requires
        u.to_multiset() == v.to_multiset(),
    ensures
        consume(bag, u) == consume(bag, v),
    decreases u.len(),
{
    if u.len() == 0 {
        assert(v.to_multiset().len() == 0);
        assert(v =~= u);
    } else {
        let c = u.last();
        let u1 = u.drop_last();
        assert(u1.push(c) =~= u);
        assert(v.to_multiset().count(c) > 0);
        assert(v.contains(c));
        let i = choose|i: int| 0 <= i < v.len() && v[i] == c;
        let a = v.take(i);
        let rest = v.skip(i + 1);
        assert(v =~= a + (seq![c] + rest));
        assert(v.remove(i) =~= a + rest);
        assert(u1.to_multiset() =~= u.to_multiset().remove(c));
        assert(v.remove(i).to_multiset() =~= v.to_multiset().remove(c));
        let x = consume(bag, a);
        lemma_consume_concat(bag, a, seq![c] + rest);
        lemma_consume_concat(x, seq![c], rest);
        assert(seq![c].drop_last() =~= Seq::<char>::empty());
        assert(consume(x, Seq::<char>::empty()) == x);
        assert(consume(x, seq![c]) == remove_one(x, c));
        lemma_remove_one_then_consume(x, c, rest);
        lemma_consume_concat(bag, a, rest);
        assert(consume(bag, v) == remove_one(consume(bag, a + rest), c));
        lemma_consume_permutation(bag, u1, a + rest);
    }
}

/// Whether `v` holds the letter `c`.
pub(crate) fn holds_letter(v: &Vec<char>, c: char) -> (r: bool)
    ensures
        r == v@.contains(c),
{
    let mut i: usize = 0;
    while i < v.len()
        invariant
            i <= v@.len(),
            forall|j: int| 0 <= j < i ==> v@[j] != c,
        decreases v@.len() - i,
    {
        if v[i] == c {
            return true;
        }
        i = i + 1;
    }
    false
}

/// Removes the first element of `vec` on which `filter` answers `true`, if any.
pub fn remove_first<T, F: Fn(&T) -> bool>(vec: &mut Vec<T>, filter: F)
    requires
        forall|x: &T| #[trigger] filter.requires((x,)),
    ensures
        (exists|i: int|
            0 <= i < old(vec)@.len() && filter.ensures((&old(vec)@[i],), true) && (forall|j: int|
                0 <= j < i ==> filter.ensures((&old(vec)@[j],), false)) && final(vec)@
                == old(vec)@.remove(i)) || ((forall|j: int|
            0 <= j < old(vec)@.len() ==> filter.ensures((&old(vec)@[j],), false)) && final(vec)@
            == old(vec)@),
{
    let mut i: usize = 0;
    while i < vec.len()
        invariant
            i <= vec@.len(),
            vec@ == old(vec)@,
            forall|x: &T| #[trigger] filter.requires((x,)),
            forall|j: int| 0 <= j < i ==> filter.ensures((&old(vec)@[j],), false),
        decreases vec@.len() - i,
    {
        let hit = filter(&vec[i]);
        if hit {
            vec.remove(i);
            return;
        }
        i = i + 1;
    }
}

/// Takes the first occurrence of `c` out of `bag`.
pub fn remove_letter(bag: &mut Vec<char>, c: char)
    ensures
        final(bag)@ == remove_one(old(bag)@, c),
{
    let ghost before = bag@;
    remove_first(bag, |l: &char| -> (b: bool)
        ensures
            b == (*l == c),
        { *l == c });
    proof {
        if exists|i: int| 0 <= i < before.len() && before[i] == c {
            let k = choose|i: int| 0 <= i < before.len() && before[i] == c;
            let i = first_index_at_most(before, c, k);
            lemma_remove_one_index(before, c, i);
        } else {
            lemma_remove_one_absent(before, c);
        }
    }
}

/// Takes one occurrence of each letter of `word` out of `bag`, in order. The
/// word must fit the bag.
pub fn remove_letters(bag: &mut Vec<char>, word: &Vec<char>)
    requires
        fits(word@, old(bag)@),
    ensures
        final(bag)@ == consume(old(bag)@, word@),
{
    let mut i: usize = 0;
    while i < word.len()
        invariant
            i <= word@.len(),
            bag@ == consume(old(bag)@, word@.take(i as int)),
        decreases word@.len() - i,
    {
        remove_letter(bag, word[i]);
        assert(word@.take(i + 1).drop_last() =~= word@.take(i as int));
        i = i + 1;
    }
    assert(word@.take(i as int) =~= word@);
}

} // verus!
