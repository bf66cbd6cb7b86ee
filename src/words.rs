//! Dictionary words, sentences built from them, and the search that grows
//! sentences one word at a time until they reach the requested word count.
use crate::letters::{
    consume, fits, holds_letter, lemma_consume_concat, lemma_consume_len,
    lemma_consume_permutation, lemma_fits_step, lemma_no_fit_prefix, remove_letter, remove_letters,
};
use vstd::multiset::Multiset;
use vstd::prelude::*;

verus! {

broadcast use {vstd::seq_lib::group_to_multiset_ensures, vstd::multiset::group_multiset_axioms};

/// A dictionary word, with its letters and their number kept alongside.
#[derive(PartialEq, Eq, Hash)]
pub struct BaseWord {
    word: String,
    chars: Vec<char>,
    char_number: usize,
}

impl Clone for BaseWord {
    fn clone(&self) -> Self {
        self.duplicate()
    }
}

impl View for BaseWord {
    type V = Seq<char>;

    closed spec fn view(&self) -> Seq<char> {
        self.word@
    }
}

/// The letters of `s`, in order.
fn letters_of(s: &str) -> (r: Vec<char>)
    ensures
        r@ == s@,
{
    let mut out: Vec<char> = Vec::new();
    for c in it: s.chars()
        invariant
            out@ == it.seq().take(it.index() as int),
    {
        out.push(c);
    }
    out
}

impl BaseWord {
    #[verifier::type_invariant]
    spec fn well_formed(self) -> bool {
        &&& self.chars@ == self.word@
        &&& self.char_number == self.chars@.len()
    }

    pub fn new(word: String) -> (r: BaseWord)
        ensures
            r@ == word@,
    {
        let word_chars = letters_of(word.as_str());
        let n = word_chars.len();
        BaseWord { word, chars: word_chars, char_number: n }
    }
    /// The text of this word.
    pub fn text(&self) -> (r: &String)
        ensures
            r@ == self@,
    {
        &self.word
    }

    /// A copy of this word.
    pub fn duplicate(&self) -> (r: BaseWord)
        ensures
            r@ == self@,
    {
        proof {
            use_type_invariant(self);
        }
        let chars = copy_letters(&self.chars);
        BaseWord { word: self.word.clone(), chars, char_number: self.char_number }
    }

    /// Whether this word can be spelled from `letters`, each letter used at
    /// most once.
    pub fn word_can_build_from_letters(&self, letters: &Vec<char>) -> (r: bool)
        ensures
            r == fits(self@, letters@),
    {
        proof {
            use_type_invariant(self);
        }
        if self.char_number > letters.len() {
            proof {
                if fits(self@, letters@) {
                    lemma_consume_len(letters@, self@);
                }
            }
            false
        } else {
            let ghost w = self@;
            let mut remaining_chars = copy_letters(letters);
            let mut success = true;
            let mut i: usize = 0;
            assert(w.take(0).to_multiset() =~= Multiset::empty());
            while i < self.chars.len()
                invariant
                    self.chars@ == w,
                    i <= w.len(),
                    success ==> remaining_chars@ == consume(letters@, w.take(i as int)) && fits(
                        w.take(i as int),
                        letters@,
                    ),
                    !success ==> !fits(w, letters@),
                decreases w.len() - i,
            {
                let c = self.chars[i];
                proof {
                    assert(w.take(i + 1) =~= w.take(i as int).push(c));
                    if success {
                        lemma_fits_step(letters@, w.take(i as int), c);
                    }
                }
                if success && holds_letter(&remaining_chars, c) {
                    remove_letter(&mut remaining_chars, c);
                    proof {
                        assert(w.take(i + 1).drop_last() =~= w.take(i as int));
                    }
                } else {
                    proof {
                        if success {
                            lemma_no_fit_prefix(w, letters@, i + 1);
                        }
                    }
                    success = false;
                }
                i = i + 1;
            }
            assert(w.take(i as int) =~= w);
            success
        }
    }

    /// The one-word sentence made of this word, with the letters of `letters`
    /// that it leaves unused. The word must fit the letters.
    pub fn to_sentence(&self, letters: &Vec<char>) -> (r: Sentence)
        requires
            fits(self@, letters@),
        ensures
            r@ == start(self@, letters@),
    {
        proof {
            use_type_invariant(self);
            lemma_consume_len(letters@, self@);
            assert(letters@.len() == letters.len());
        }
        let mut remaining_letters_for_sentence = copy_letters(letters);
        remove_letters(&mut remaining_letters_for_sentence, &self.chars);
        Sentence::start(self.duplicate(), remaining_letters_for_sentence)
    }
}

/// A copy of `v`.
fn copy_letters(v: &Vec<char>) -> (r: Vec<char>)
    ensures
        r@ == v@,
{
    let mut out: Vec<char> = Vec::new();
    let mut i: usize = 0;
    while i < v.len()
        invariant
            i <= v@.len(),
            out@ == v@.take(i as int),
        decreases v@.len() - i,
    {
        out.push(v[i]);
        assert(v@.take(i + 1) =~= v@.take(i as int).push(v@[i as int]));
        i = i + 1;
    }
    assert(v@.take(i as int) =~= v@);
    out
}

/// What a sentence stands for: its words in canonical order, the letters it
/// left unused, its total length in letters, and whether it can grow no more.
pub struct SentenceView {
    pub words: Seq<Seq<char>>,
    pub remaining: Seq<char>,
    pub length: nat,
    pub exhausted: bool,
}

/// The number of letters of all the words together.
pub open spec fn total_len(ws: Seq<Seq<char>>) -> nat
    decreases ws.len(),
{
    if ws.len() == 0 {
        0
    } else {
        total_len(ws.drop_last()) + ws.last().len()
    }
}

/// The words separated by single spaces.
pub open spec fn join(ws: Seq<Seq<char>>) -> Seq<char>
    decreases ws.len(),
{
    if ws.len() == 0 {
        Seq::empty()
    } else if ws.len() == 1 {
        ws[0]
    } else {
        join(ws.drop_last()) + seq![' '] + ws.last()
    }
}

/// The views of a sequence of words.
pub open spec fn word_views(ws: Seq<BaseWord>) -> Seq<Seq<char>> {
    ws.map_values(|w: BaseWord| w@)
}

/// The one-word sentence of `w` over `letters`.
pub open spec fn start(w: Seq<char>, letters: Seq<char>) -> SentenceView {
    SentenceView { words: seq![w], remaining: consume(letters, w), length: w.len(), exhausted: false }
}

/// The words are in canonical order: sorted by length, longest first.
pub open spec fn sorted_by_len(ws: Seq<Seq<char>>) -> bool {
    forall|i: int, j: int| 0 <= i < j < ws.len() ==> ws[i].len() >= ws[j].len()
}

/// A sentence that can grow no more: marked so, or with no letter left.
pub open spec fn completed(s: SentenceView) -> bool {
    s.exhausted || s.remaining.len() == 0
}

/// The same sentence, marked as unable to grow.
pub open spec fn marked(s: SentenceView) -> SentenceView {
    SentenceView { exhausted: true, ..s }
}

/// A sentence of the search, with the invariants that its words are in
/// canonical order, that its length is the number of letters of its words,
/// and that its counts fit in a `usize`.
pub struct Sentence {
    words: Vec<BaseWord>,
    remaining_letters: Vec<char>,
    length: usize,
    max_expansion_reached: bool,
}

impl View for Sentence {
    type V = SentenceView;

    closed spec fn view(&self) -> SentenceView {
        SentenceView {
            words: word_views(self.words@),
            remaining: self.remaining_letters@,
            length: self.length as nat,
            exhausted: self.max_expansion_reached,
        }
    }
}

/// The sum of the first `i` word lengths is at most the sum of all.
pub proof fn lemma_total_len_prefix(ws: Seq<Seq<char>>, i: int)
    requires
        0 <= i <= ws.len(),
    ensures
        total_len(ws.take(i)) <= total_len(ws),
    decreases ws.len() - i,
{
    if i < ws.len() {
        lemma_total_len_prefix(ws, i + 1);
        assert(ws.take(i + 1).drop_last() =~= ws.take(i));
    } else {
        assert(ws.take(i) =~= ws);
    }
}

/// A single word's total length is its own.
pub proof fn lemma_total_len_single(w: Seq<char>)
    ensures
        total_len(seq![w]) == w.len(),
{
    assert(seq![w].drop_last() =~= Seq::<Seq<char>>::empty());
    assert(total_len(Seq::<Seq<char>>::empty()) == 0);
}

impl Sentence {
    #[verifier::type_invariant]
    spec fn well_formed(self) -> bool {
        &&& sorted_by_len(self@.words)
        &&& self.length == total_len(self@.words)
        &&& self.length + self.remaining_letters@.len() <= usize::MAX
    }

    /// A sentence of `words`, not yet marked, with `remaining_letters` unused.
    pub fn new(words: Vec<BaseWord>, remaining_letters: Vec<char>) -> (r: Sentence)
        requires
            sorted_by_len(word_views(words@)),
            total_len(word_views(words@)) + remaining_letters@.len() <= usize::MAX,
        ensures
            r@ == (SentenceView {
                words: word_views(words@),
                remaining: remaining_letters@,
                length: total_len(word_views(words@)),
                exhausted: false,
            }),
    {
        let ghost ws = word_views(words@);
        let mut length: usize = 0;
        let mut i: usize = 0;
        while i < words.len()
            invariant
                ws == word_views(words@),
                i <= words@.len(),
                length == total_len(ws.take(i as int)),
                total_len(ws) + remaining_letters@.len() <= usize::MAX,
            decreases words@.len() - i,
        {
            let w = &words[i];
            proof {
                use_type_invariant(w);
                assert(ws.take(i + 1).drop_last() =~= ws.take(i as int));
                lemma_total_len_prefix(ws, i + 1);
            }
            length = length + w.char_number;
            i = i + 1;
        }
        assert(ws.take(i as int) =~= ws);
        Sentence { words, remaining_letters, length, max_expansion_reached: false }
    }

    /// The one-word sentence of `word`, with `remaining_letters` unused.
    pub fn start(word: BaseWord, remaining_letters: Vec<char>) -> (r: Sentence)
        requires
            word@.len() + remaining_letters@.len() <= usize::MAX,
        ensures
            r@ == (SentenceView {
                words: seq![word@],
                remaining: remaining_letters@,
                length: word@.len(),
                exhausted: false,
            }),
    {
        proof {
            use_type_invariant(&word);
        }
        let ghost wv = word@;
        let length = word.char_number;
        let words = vec![word];
        assert(word_views(words@) =~= seq![wv]);
        proof {
            lemma_total_len_single(wv);
        }
        Sentence { words, remaining_letters, length, max_expansion_reached: false }
    }

    /// A copy of this sentence, marked as unable to grow.
    pub fn mark_as_max_expansion_reached(&self) -> (r: Sentence)
        ensures
            r@ == marked(self@),
    {
        proof {
            use_type_invariant(self);
        }
        let words = copy_words(&self.words);
        Sentence {
            words,
            remaining_letters: copy_letters(&self.remaining_letters),
            length: self.length,
            max_expansion_reached: true,
        }
    }

    /// Whether this sentence can grow no more.
    pub fn is_completed(&self) -> (r: bool)
        ensures
            r == completed(self@),
    {
        self.max_expansion_reached || self.remaining_letters.len() == 0
    }
}

/// A copy of each word of `ws`.
fn copy_words(ws: &Vec<BaseWord>) -> (r: Vec<BaseWord>)
    ensures
        word_views(r@) == word_views(ws@),
{
    let mut out: Vec<BaseWord> = Vec::new();
    let mut i: usize = 0;
    while i < ws.len()
        invariant
            i <= ws@.len(),
            out@.len() == i,
            word_views(out@) == word_views(ws@).take(i as int),
        decreases ws@.len() - i,
    {
        let w = ws[i].duplicate();
        let ghost prev = out@;
        out.push(w);
        assert(word_views(out@).len() == i + 1);
        assert forall|k: int| 0 <= k < i + 1 implies #[trigger] word_views(out@)[k] == word_views(
            ws@,
        )[k] by {
            if k < i {
                assert(word_views(prev)[k] == word_views(ws@).take(i as int)[k]);
            }
        }
        assert(word_views(out@) =~= word_views(ws@).take(i + 1));
        i = i + 1;
    }
    assert(word_views(ws@).take(i as int) =~= word_views(ws@));
    out
}

/// The text of `letters` as std's `Debug` writes a `Vec<char>`.
pub uninterp spec fn debug_text(letters: Seq<char>) -> Seq<char>;

/// Relies on std's `Debug` implementation for `Vec<char>`: the text depends on
/// the letters alone.
#[verifier::external_body]
fn debug_letters(letters: &Vec<char>) -> (r: String)
    ensures
        r@ == debug_text(letters@),
{
    format!("{:?}", letters)
}

/// The notice that lists the unused letters of a sentence.
pub open spec fn unused_notice(remaining: Seq<char>) -> Seq<char> {
    "(unused letters:"@ + debug_text(remaining) + ")"@
}

/// How a sentence is shown: its words joined by single spaces, followed, when
/// asked for and when letters remain, by a space and the notice of unused
/// letters.
pub open spec fn display_text(s: SentenceView, with_unused: bool) -> Seq<char> {
    if with_unused && s.remaining.len() > 0 {
        join(s.words) + seq![' '] + unused_notice(s.remaining)
    } else {
        join(s.words)
    }
}

impl Sentence {
    /// The words of this sentence joined by single spaces.
    pub fn joined(&self) -> (r: String)
        ensures
            r@ == join(self@.words),
    {
        let ghost ws = self@.words;
        let mut out = String::new();
        let mut i: usize = 0;
        while i < self.words.len()
            invariant
                ws == self@.words,
                i <= ws.len(),
                out@ == join(ws.take(i as int)),
            decreases ws.len() - i,
        {
            assert(ws.take(i + 1).drop_last() =~= ws.take(i as int));
            assert(ws.take(i + 1).last() == self.words@[i as int].word@);
            let ghost before = out@;
            proof {
                reveal_strlit(" ");
            }
            if i > 0 {
                out.append(" ");
            }
            out.append(self.words[i].word.as_str());
            if i == 0 {
                assert(out@ =~= ws[0]);
            } else {
                assert(out@ =~= before + seq![' '] + ws[i as int]);
            }
            i = i + 1;
        }
        assert(ws.take(i as int) =~= ws);
        out
    }

    /// The letters of the words of this sentence joined by single spaces.
    pub fn joined_letters(&self) -> (r: Vec<char>)
        ensures
            r@ == join(self@.words),
    {
        let ghost ws = self@.words;
        let mut out: Vec<char> = Vec::new();
        let mut i: usize = 0;
        while i < self.words.len()
            invariant
                ws == self@.words,
                i <= ws.len(),
                out@ == join(ws.take(i as int)),
            decreases ws.len() - i,
        {
            let w = &self.words[i];
            proof {
                use_type_invariant(w);
            }
            assert(ws.take(i + 1).drop_last() =~= ws.take(i as int));
            if i > 0 {
                out.push(' ');
            }
            let ghost before = out@;
            let mut k: usize = 0;
            while k < w.chars.len()
                invariant
                    w.chars@ == ws[i as int],
                    k <= w.chars@.len(),
                    out@ == before + w.chars@.take(k as int),
                decreases w.chars@.len() - k,
            {
                out.push(w.chars[k]);
                assert(w.chars@.take(k + 1) =~= w.chars@.take(k as int).push(w.chars@[k as int]));
                k = k + 1;
            }
            assert(w.chars@.take(k as int) =~= w.chars@);
            assert(out@ =~= before + ws[i as int]);
            assert(ws.take(i + 1).last() == ws[i as int]);
            if i == 0 {
                assert(before =~= Seq::<char>::empty());
                assert(out@ =~= ws[0]);
            }
            i = i + 1;
        }
        assert(ws.take(i as int) =~= ws);
        out
    }

    /// The text of this sentence, with the notice of unused letters when
    /// `with_unused` holds.
    pub fn display(&self, with_unused: bool) -> (r: String)
        ensures
            r@ == display_text(self@, with_unused),
    {
        let mut fused = self.joined();
        if with_unused && self.remaining_letters.len() > 0 {
            proof {
                reveal_strlit(" ");
            }
            let listed = debug_letters(&self.remaining_letters);
            fused.append(" ");
            fused.append("(unused letters:");
            fused.append(listed.as_str());
            fused.append(")");
        }
        fused
    }
}

/// The place of a word of `n` letters among `ws`, searched from index `i`:
/// after every word at least as long, before the first shorter one.
pub open spec fn insert_pos_from(ws: Seq<Seq<char>>, n: nat, i: int) -> int
    decreases ws.len() - i,
{
    if i >= ws.len() {
        ws.len() as int
    } else if ws[i].len() < n {
        i
    } else {
        insert_pos_from(ws, n, i + 1)
    }
}

/// `ws` with `w` added in canonical order: words sorted by length, longest
/// first, words of equal length in the order in which they were added. On
/// words already in canonical order this is their stable sort by length once
/// `w` is appended.
pub open spec fn canonical_insert(ws: Seq<Seq<char>>, w: Seq<char>) -> Seq<Seq<char>> {
    ws.insert(insert_pos_from(ws, w.len(), 0), w)
}

/// `s` grown by the word `w`.
pub open spec fn extended(s: SentenceView, w: Seq<char>) -> SentenceView {
    let ws = canonical_insert(s.words, w);
    SentenceView { words: ws, remaining: consume(s.remaining, w), length: total_len(ws), exhausted: false }
}

/// `s` can still grow by some word of `base`.
pub open spec fn can_grow(s: SentenceView, base: Seq<Seq<char>>) -> bool {
    !completed(s) && exists|k: int| 0 <= k < base.len() && fits(base[k], s.remaining)
}

/// `t` is what one step of the search makes of `s`: `s` grown by a word of
/// `base` that fits its unused letters, or `s` marked when none can follow.
pub open spec fn produces(s: SentenceView, base: Seq<Seq<char>>, t: SentenceView) -> bool {
    if can_grow(s, base) {
        exists|k: int| 0 <= k < base.len() && fits(base[k], s.remaining) && t == extended(s, base[k])
    } else {
        t == marked(s)
    }
}

/// The generation that follows `g`.
pub open spec fn next_generation(g: Set<SentenceView>, base: Seq<Seq<char>>) -> Set<SentenceView> {
    Set::new(|t: SentenceView| exists|s: SentenceView| g.contains(s) && produces(s, base, t))
}

/// The views of a sequence of sentences.
pub open spec fn views(g: Seq<Sentence>) -> Seq<SentenceView> {
    g.map_values(|s: Sentence| s@)
}

/// Inserting a word adds its length to the total.
pub proof fn lemma_total_len_insert(ws: Seq<Seq<char>>, p: int, w: Seq<char>)
    requires
        0 <= p <= ws.len(),
    ensures
        total_len(ws.insert(p, w)) == total_len(ws) + w.len(),
    decreases ws.len(),
{
    if p == ws.len() {
        assert(ws.insert(p, w).drop_last() =~= ws);
    } else {
        lemma_total_len_insert(ws.drop_last(), p, w);
        assert(ws.insert(p, w).drop_last() =~= ws.drop_last().insert(p, w));
    }
}

/// The words before the canonical place of a word of `n` letters are at
/// least that long, and the word at that place, if any, is shorter.
pub proof fn lemma_insert_pos_props(ws: Seq<Seq<char>>, n: nat, i: int)
    requires
        0 <= i <= ws.len(),
    ensures
        forall|k: int| i <= k < insert_pos_from(ws, n, i) ==> ws[k].len() >= n,
        insert_pos_from(ws, n, i) < ws.len() ==> ws[insert_pos_from(ws, n, i)].len() < n,
    decreases ws.len() - i,
{
    if i < ws.len() && ws[i].len() >= n {
        lemma_insert_pos_props(ws, n, i + 1);
    }
}

/// Adding a word in canonical order keeps the words in canonical order.
pub proof fn lemma_canonical_insert_sorted(ws: Seq<Seq<char>>, w: Seq<char>)
    requires
        sorted_by_len(ws),
    ensures
        sorted_by_len(canonical_insert(ws, w)),
{
    let p = insert_pos_from(ws, w.len(), 0);
    lemma_insert_pos_bounds(ws, w.len(), 0);
    lemma_insert_pos_props(ws, w.len(), 0);
    let r = canonical_insert(ws, w);
    assert forall|i: int, j: int| 0 <= i < j < r.len() implies r[i].len() >= r[j].len() by {
        if i == p {
            assert(ws[j - 1].len() <= ws[p].len());
        } else if j == p {
            assert(r[i] == ws[i]);
        } else {
            let i1 = if i < p { i } else { i - 1 };
            let j1 = if j < p { j } else { j - 1 };
            assert(r[i] == ws[i1] && r[j] == ws[j1]);
        }
    }
}

/// `words` with `w` added in canonical order.
fn with_word(words: &Vec<BaseWord>, w: &BaseWord) -> (r: Vec<BaseWord>)
    ensures
        word_views(r@) == canonical_insert(word_views(words@), w@),
{
    proof {
        use_type_invariant(w);
    }
    let ghost ws = word_views(words@);
    let mut p: usize = 0;
    let mut found = false;
    while !found && p < words.len()
        invariant
            ws == word_views(words@),
            w.char_number == w@.len(),
            p <= ws.len(),
            found ==> p < ws.len() && ws[p as int].len() < w@.len(),
            insert_pos_from(ws, w@.len(), 0) == insert_pos_from(ws, w@.len(), p as int),
        decreases ws.len() - p + (if found { 0int } else { 1int }),
    {
        let x = &words[p];
        proof {
            use_type_invariant(x);
        }
        if x.char_number < w.char_number {
            found = true;
        } else {
            p = p + 1;
        }
    }
    let mut out = copy_words(words);
    let ghost prev = out@;
    out.insert(p, w.duplicate());
    assert(word_views(out@) =~= ws.insert(p as int, w@)) by {
        assert(word_views(prev) == ws);
        assert forall|k: int| 0 <= k < ws.len() + 1 implies #[trigger] word_views(out@)[k]
            == ws.insert(p as int, w@)[k] by {
            if k < p {
                assert(word_views(prev)[k] == ws[k]);
            } else if k > p {
                assert(word_views(prev)[k - 1] == ws[k - 1]);
            }
        }
    }
    out
}

/// Whether two sentences have the same words, unused letters, length and mark.
fn same_sentence(a: &Sentence, b: &Sentence) -> (r: bool)
    ensures
        r == (a@ == b@),
{
    assert(a@.words.len() == a.words@.len() && b@.words.len() == b.words@.len());
    if a.length != b.length || a.max_expansion_reached != b.max_expansion_reached
        || a.words.len() != b.words.len() || a.remaining_letters.len()
        != b.remaining_letters.len() {
        return false;
    }
    let mut i: usize = 0;
    while i < a.words.len()
        invariant
            a.words@.len() == b.words@.len(),
            i <= a.words@.len(),
            forall|k: int| 0 <= k < i ==> a@.words[k] == b@.words[k],
        decreases a.words@.len() - i,
    {
        if a.words[i].word != b.words[i].word {
            assert(a@.words[i as int] != b@.words[i as int]);
            return false;
        }
        i = i + 1;
    }
    assert(a@.words =~= b@.words);
    let mut j: usize = 0;
    while j < a.remaining_letters.len()
        invariant
            a.remaining_letters@.len() == b.remaining_letters@.len(),
            j <= a.remaining_letters@.len(),
            forall|k: int| 0 <= k < j ==> a.remaining_letters@[k] == b.remaining_letters@[k],
        decreases a.remaining_letters@.len() - j,
    {
        if a.remaining_letters[j] != b.remaining_letters[j] {
            return false;
        }
        j = j + 1;
    }
    assert(a@.remaining =~= b@.remaining);
    true
}

/// Adds `s` to `out` unless a sentence equal to it is there already.
fn insert_unique(out: &mut Vec<Sentence>, s: Sentence)
    requires
        views(old(out)@).no_duplicates(),
    ensures
        views(final(out)@).no_duplicates(),
        forall|t: SentenceView| #[trigger]
            views(final(out)@).contains(t) <==> views(old(out)@).contains(t) || t == s@,
{
    let mut i: usize = 0;
    while i < out.len()
        invariant
            out@ == old(out)@,
            views(old(out)@).no_duplicates(),
            i <= out@.len(),
            forall|k: int| 0 <= k < i ==> out@[k]@ != s@,
        decreases out@.len() - i,
    {
        if same_sentence(&out[i], &s) {
            assert(views(out@)[i as int] == s@);
            assert(views(out@) == views(old(out)@));
            return;
        }
        i = i + 1;
    }
    let ghost prev = views(out@);
    out.push(s);
    assert(views(out@) =~= prev.push(s@));
    assert forall|t: SentenceView| #[trigger]
        views(out@).contains(t) <==> prev.contains(t) || t == s@ by {
        if prev.contains(t) {
            let k = choose|k: int| 0 <= k < prev.len() && prev[k] == t;
            assert(views(out@)[k] == t);
        }
        if t == s@ {
            assert(views(out@)[prev.len() as int] == t);
        }
    }
}

/// The generation that follows `sentences_found`: each sentence that can
/// still grow is replaced by every sentence that one more word of
/// `base_words` makes of it; each other sentence is kept, marked as unable to
/// grow. Equal sentences are kept once.
pub fn expand_sentences_found(base_words: &Vec<BaseWord>, sentences_found: &Vec<Sentence>) -> (r:
    Vec<Sentence>)
    ensures
        views(r@).no_duplicates(),
        views(r@).to_set() == next_generation(
            views(sentences_found@).to_set(),
            word_views(base_words@),
        ),
{
    let ghost base = word_views(base_words@);
    let ghost g = views(sentences_found@);
    let mut out: Vec<Sentence> = Vec::new();
    let mut i: usize = 0;
    while i < sentences_found.len()
        invariant
            base == word_views(base_words@),
            g == views(sentences_found@),
            i <= g.len(),
            views(out@).no_duplicates(),
            forall|t: SentenceView| #[trigger]
                views(out@).contains(t) <==> exists|ii: int|
                    0 <= ii < i && #[trigger] produces(g[ii], base, t),
        decreases g.len() - i,
    {
        let sentence = &sentences_found[i];
        let ghost s = g[i as int];
        let ghost before = views(out@);
        let mut expanded = false;
        if !sentence.is_completed() {
            let mut j: usize = 0;
            while j < base_words.len()
                invariant
                    base == word_views(base_words@),
                    g == views(sentences_found@),
                    i < g.len(),
                    s == g[i as int],
                    s == sentence@,
                    !completed(s),
                    j <= base.len(),
                    views(out@).no_duplicates(),
                    expanded == exists|k: int| 0 <= k < j && fits(base[k], s.remaining),
                    forall|t: SentenceView| #[trigger]
                        views(out@).contains(t) <==> before.contains(t) || exists|k: int|
                            0 <= k < j && fits(base[k], s.remaining) && t == #[trigger] extended(
                                s,
                                base[k],
                            ),
                decreases base.len() - j,
            {
                let w = &base_words[j];
                proof {
                    use_type_invariant(w);
                    use_type_invariant(sentence);
                }
                let ghost prev = views(out@);
                if w.word_can_build_from_letters(&sentence.remaining_letters) {
                    let more_words = with_word(&sentence.words, w);
                    let mut remaining_letters = copy_letters(&sentence.remaining_letters);
                    remove_letters(&mut remaining_letters, &w.chars);
                    proof {
                        lemma_consume_len(s.remaining, w@);
                        lemma_insert_pos_bounds(s.words, w@.len(), 0);
                        lemma_canonical_insert_sorted(s.words, w@);
                        lemma_total_len_insert(
                            s.words,
                            insert_pos_from(s.words, w@.len(), 0),
                            w@,
                        );
                    }
                    let child = Sentence::new(more_words, remaining_letters);
                    assert(child@ == extended(s, base[j as int]));
                    insert_unique(&mut out, child);
                    expanded = true;
                }
                assert forall|t: SentenceView| #[trigger]
                    views(out@).contains(t) <==> before.contains(t) || exists|k: int|
                        0 <= k < j + 1 && fits(base[k], s.remaining) && t == #[trigger] extended(
                            s,
                            base[k],
                        ) by {
                    if exists|k: int|
                        0 <= k < j + 1 && fits(base[k], s.remaining) && t == extended(s, base[k]) {
                        let k = choose|k: int|
                            0 <= k < j + 1 && fits(base[k], s.remaining) && t == extended(
                                s,
                                base[k],
                            );
                        if k < j {
                            assert(prev.contains(t));
                        }
                    }
                }
                j = j + 1;
            }
            assert(expanded == can_grow(s, base));
        }
        if !expanded {
            insert_unique(&mut out, sentence.mark_as_max_expansion_reached());
        }
        assert forall|t: SentenceView| #[trigger]
            views(out@).contains(t) <==> exists|ii: int|
                0 <= ii < i + 1 && #[trigger] produces(g[ii], base, t) by {
            if exists|ii: int| 0 <= ii < i + 1 && #[trigger] produces(g[ii], base, t) {
                let ii = choose|ii: int| 0 <= ii < i + 1 && #[trigger] produces(g[ii], base, t);
                if ii < i {
                    assert(before.contains(t));
                } else if can_grow(s, base) {
                    let k = choose|k: int|
                        0 <= k < base.len() && fits(base[k], s.remaining) && t == extended(
                            s,
                            base[k],
                        );
                    assert(t == extended(s, base[k]));
                }
            }
            if views(out@).contains(t) && !before.contains(t) {
                assert(produces(g[i as int], base, t));
            }
        }
        i = i + 1;
    }
    assert(views(out@).to_set() =~= next_generation(g.to_set(), base)) by {
        assert forall|t: SentenceView|
            next_generation(g.to_set(), base).contains(t) implies views(out@).contains(t) by {
            let s = choose|s: SentenceView| g.to_set().contains(s) && produces(s, base, t);
            let ii = choose|ii: int| 0 <= ii < g.len() && g[ii] == s;
            assert(produces(g[ii], base, t));
        }
        assert forall|t: SentenceView|
            views(out@).contains(t) implies next_generation(g.to_set(), base).contains(t) by {
            let ii = choose|ii: int| 0 <= ii < g.len() && #[trigger] produces(g[ii], base, t);
            assert(g.to_set().contains(g[ii]));
        }
    }
    out
}

/// The canonical place of a word lies within the sequence.
pub proof fn lemma_insert_pos_bounds(ws: Seq<Seq<char>>, n: nat, i: int)
    requires
        0 <= i <= ws.len(),
    ensures
        i <= insert_pos_from(ws, n, i) <= ws.len(),
    decreases ws.len() - i,
{
    if i < ws.len() && ws[i].len() >= n {
        lemma_insert_pos_bounds(ws, n, i + 1);
    }
}

/// The first generation: the one-word sentence of each word of `base`.
pub open spec fn seeds(base: Seq<Seq<char>>, letters: Seq<char>) -> Set<SentenceView> {
    Set::new(|t: SentenceView| exists|k: int| 0 <= k < base.len() && t == start(base[k], letters))
}

/// The generation reached after `n` steps of the search.
pub open spec fn generation(base: Seq<Seq<char>>, letters: Seq<char>, n: nat) -> Set<SentenceView>
    decreases n,
{
    if n == 0 {
        seeds(base, letters)
    } else {
        next_generation(generation(base, letters, (n - 1) as nat), base)
    }
}

/// Every word of `base` can be spelled from `letters`.
pub open spec fn all_fit(base: Seq<Seq<char>>, letters: Seq<char>) -> bool {
    forall|k: int| 0 <= k < base.len() ==> fits(#[trigger] base[k], letters)
}

/// The one-word sentences of `words` over `letters`, each kept once.
pub fn seed_sentences(words: &Vec<BaseWord>, letters: &Vec<char>) -> (r: Vec<Sentence>)
    requires
        all_fit(word_views(words@), letters@),
    ensures
        views(r@).no_duplicates(),
        views(r@).to_set() == seeds(word_views(words@), letters@),
{
    let ghost base = word_views(words@);
    let mut out: Vec<Sentence> = Vec::new();
    let mut i: usize = 0;
    while i < words.len()
        invariant
            base == word_views(words@),
            all_fit(base, letters@),
            i <= base.len(),
            views(out@).no_duplicates(),
            forall|t: SentenceView| #[trigger]
                views(out@).contains(t) <==> exists|k: int|
                    0 <= k < i && t == #[trigger] start(base[k], letters@),
        decreases base.len() - i,
    {
        let ghost prev = views(out@);
        assert(base[i as int] == words@[i as int]@);
        let sentence = words[i].to_sentence(letters);
        let ghost added = sentence@;
        insert_unique(&mut out, sentence);
        assert forall|t: SentenceView| #[trigger]
            views(out@).contains(t) <==> exists|k: int|
                0 <= k < i + 1 && t == #[trigger] start(base[k], letters@) by {
            if exists|k: int| 0 <= k < i + 1 && t == #[trigger] start(base[k], letters@) {
                let k = choose|k: int| 0 <= k < i + 1 && t == #[trigger] start(base[k], letters@);
                if k < i {
                    assert(prev.contains(t));
                } else {
                    assert(t == added);
                }
            }
            if views(out@).contains(t) && !prev.contains(t) {
                assert(t == start(base[i as int], letters@));
            }
        }
        i = i + 1;
    }
    assert(views(out@).to_set() =~= seeds(base, letters@));
    out
}

/// `a` comes no later than `b` in dictionary order, comparing from index `i`
/// on, letter by letter by their code points; a prefix comes first.
pub open spec fn lex_le_from(a: Seq<char>, b: Seq<char>, i: int) -> bool
    decreases a.len() - i,
{
    if i >= a.len() {
        true
    } else if i >= b.len() {
        false
    } else if a[i] != b[i] {
        (a[i] as int) < (b[i] as int)
    } else {
        lex_le_from(a, b, i + 1)
    }
}

/// `a` comes no later than `b` in dictionary order.
pub open spec fn lex_le(a: Seq<char>, b: Seq<char>) -> bool {
    lex_le_from(a, b, 0)
}

/// `a` is ranked no later than `b`: it is longer, or as long and its text
/// comes no later in dictionary order.
pub open spec fn ranks_before(a: SentenceView, b: SentenceView) -> bool {
    a.length > b.length || (a.length == b.length && lex_le(join(a.words), join(b.words)))
}

/// `order` lists each sentence of `g` once, from the highest ranked down.
pub open spec fn is_ranking(order: Seq<SentenceView>, g: Set<SentenceView>) -> bool {
    &&& order.no_duplicates()
    &&& order.to_set() == g
    &&& forall|a: int, b: int| 0 <= a < b < order.len() ==> ranks_before(order[a], order[b])
}

/// `texts` shows, in order, each sentence of some ranking of `g`.
pub open spec fn shows_ranking(texts: Seq<String>, g: Set<SentenceView>, with_unused: bool) -> bool {
    exists|order: Seq<SentenceView>|
        is_ranking(order, g) && texts.len() == order.len() && forall|m: int|
            0 <= m < order.len() ==> #[trigger] texts[m]@ == display_text(order[m], with_unused)
}

/// Dictionary order is total.
pub proof fn lemma_lex_total(a: Seq<char>, b: Seq<char>, i: int)
    requires
        0 <= i,
    ensures
        lex_le_from(a, b, i) || lex_le_from(b, a, i),
    decreases a.len() - i,
{
    if i < a.len() && i < b.len() {
        if a[i] == b[i] {
            lemma_lex_total(a, b, i + 1);
        } else {
            assert(a[i] as int != b[i] as int);
        }
    }
}

/// Dictionary order is transitive.
pub proof fn lemma_lex_trans(a: Seq<char>, b: Seq<char>, c: Seq<char>, i: int)
    requires
        0 <= i,
        lex_le_from(a, b, i),
        lex_le_from(b, c, i),
    ensures
        lex_le_from(a, c, i),
    decreases a.len() - i,
{
    if i < a.len() && i < b.len() && i < c.len() && a[i] == b[i] && b[i] == c[i] {
        lemma_lex_trans(a, b, c, i + 1);
    }
}

/// Two texts each no later than the other agree from index `i` on.
pub proof fn lemma_lex_antisym(a: Seq<char>, b: Seq<char>, i: int)
    requires
        0 <= i <= a.len(),
        i <= b.len(),
        a.take(i) == b.take(i),
        lex_le_from(a, b, i),
        lex_le_from(b, a, i),
    ensures
        a == b,
    decreases a.len() - i,
{
    if i < a.len() {
        assert(a.take(i + 1) =~= a.take(i).push(a[i]));
        assert(b.take(i + 1) =~= b.take(i).push(b[i]));
        lemma_lex_antisym(a, b, i + 1);
    } else {
        assert(a =~= a.take(i));
        assert(b =~= b.take(i));
    }
}

/// Ranking is a total order: of two sentences one is ranked no later than
/// the other, ranking is transitive, and two sentences each ranked no later
/// than the other have the same length and the same text.
pub proof fn lemma_ranking_total_order(a: SentenceView, b: SentenceView, c: SentenceView)
    ensures
        ranks_before(a, b) || ranks_before(b, a),
        ranks_before(a, b) && ranks_before(b, c) ==> ranks_before(a, c),
        ranks_before(a, b) && ranks_before(b, a) ==> a.length == b.length && join(a.words)
            == join(b.words),
        a.length > b.length ==> ranks_before(a, b) && !ranks_before(b, a),
{
    lemma_lex_total(join(a.words), join(b.words), 0);
    if ranks_before(a, b) && ranks_before(b, c) && a.length == c.length {
        lemma_lex_trans(join(a.words), join(b.words), join(c.words), 0);
    }
    if ranks_before(a, b) && ranks_before(b, a) {
        assert(join(a.words).take(0) =~= join(b.words).take(0));
        lemma_lex_antisym(join(a.words), join(b.words), 0);
    }
}

/// Whether `a` comes no later than `b` in dictionary order.
fn letters_lex_le(a: &Vec<char>, b: &Vec<char>) -> (r: bool)
    ensures
        r == lex_le(a@, b@),
{
    let mut i: usize = 0;
    while i < a.len() && i < b.len() && a[i] == b[i]
        invariant
            i <= a@.len(),
            i <= b@.len(),
            lex_le_from(a@, b@, 0) == lex_le_from(a@, b@, i as int),
        decreases a@.len() - i,
    {
        i = i + 1;
    }
    if i == a.len() {
        true
    } else if i == b.len() {
        false
    } else {
        a[i] < b[i]
    }
}

/// The sentences of `g` picked by the indices `idx`, in that order.
pub open spec fn picked(g: Seq<SentenceView>, idx: Seq<usize>) -> Seq<SentenceView> {
    idx.map_values(|k: usize| g[k as int])
}

/// Each sentence of `order` is ranked no later than those after it.
pub open spec fn sorted_by_rank(order: Seq<SentenceView>) -> bool {
    forall|a: int, b: int| 0 <= a < b < order.len() ==> ranks_before(order[a], order[b])
}

/// Putting `x` after every sentence ranked before it, and before the first
/// that is not, keeps a ranked sequence ranked.
pub proof fn lemma_insert_ranked(order: Seq<SentenceView>, p: int, x: SentenceView)
    requires
        sorted_by_rank(order),
        0 <= p <= order.len(),
        forall|m: int| 0 <= m < p ==> ranks_before(order[m], x),
        p < order.len() ==> !ranks_before(order[p], x),
    ensures
        sorted_by_rank(order.insert(p, x)),
{
    let n = order.insert(p, x);
    assert forall|a: int, b: int| 0 <= a < b < n.len() implies ranks_before(n[a], n[b]) by {
        if a == p {
            lemma_ranking_total_order(order[p], x, x);
            if b - 1 > p {
                lemma_ranking_total_order(x, order[p], order[b - 1]);
            }
        } else if b == p {
        } else {
            let a1 = if a < p { a } else { a - 1 };
            let b1 = if b < p { b } else { b - 1 };
            assert(n[a] == order[a1] && n[b] == order[b1]);
        }
    }
}

/// Whether the sentence `a`, whose text is `ka`, is ranked no later than the
/// sentence `b`, whose text is `kb`.
fn ranks_before_exec(a: &Sentence, ka: &Vec<char>, b: &Sentence, kb: &Vec<char>) -> (r: bool)
    requires
        ka@ == join(a@.words),
        kb@ == join(b@.words),
    ensures
        r == ranks_before(a@, b@),
{
    if a.length > b.length {
        true
    } else if a.length == b.length {
        letters_lex_le(ka, kb)
    } else {
        false
    }
}

/// The positions of the sentences of `gen`, from the highest ranked down.
fn rank_order(gen: &Vec<Sentence>) -> (r: Vec<usize>)
    requires
        views(gen@).no_duplicates(),
    ensures
        forall|m: int| 0 <= m < r@.len() ==> r@[m] < gen@.len(),
        is_ranking(picked(views(gen@), r@), views(gen@).to_set()),
{
    let ghost g = views(gen@);
    let mut keys: Vec<Vec<char>> = Vec::new();
    let mut i: usize = 0;
    while i < gen.len()
        invariant
            g == views(gen@),
            i <= g.len(),
            keys@.len() == i,
            forall|m: int| 0 <= m < i ==> #[trigger] keys@[m]@ == join(g[m].words),
        decreases g.len() - i,
    {
        keys.push(gen[i].joined_letters());
        i = i + 1;
    }
    let mut idx: Vec<usize> = Vec::new();
    let mut i: usize = 0;
    while i < gen.len()
        invariant
            g == views(gen@),
            g.no_duplicates(),
            i <= g.len(),
            keys@.len() == g.len(),
            forall|m: int| 0 <= m < g.len() ==> #[trigger] keys@[m]@ == join(g[m].words),
            forall|m: int| 0 <= m < idx@.len() ==> idx@[m] < i,
            picked(g, idx@).no_duplicates(),
            forall|t: SentenceView| #[trigger]
                picked(g, idx@).contains(t) <==> exists|k: int| 0 <= k < i && g[k] == t,
            sorted_by_rank(picked(g, idx@)),
        decreases g.len() - i,
    {
        let ghost before = picked(g, idx@);
        let mut p: usize = 0;
        let mut found = false;
        while !found && p < idx.len()
            invariant
                g == views(gen@),
                i < g.len(),
                keys@.len() == g.len(),
                forall|m: int| 0 <= m < g.len() ==> #[trigger] keys@[m]@ == join(g[m].words),
                forall|m: int| 0 <= m < idx@.len() ==> idx@[m] < i,
                before == picked(g, idx@),
                p <= idx@.len(),
                forall|m: int| 0 <= m < p ==> ranks_before(before[m], g[i as int]),
                found ==> p < idx@.len() && !ranks_before(before[p as int], g[i as int]),
            decreases idx@.len() - p + (if found { 0int } else { 1int }),
        {
            let k = idx[p];
            if ranks_before_exec(&gen[k], &keys[k], &gen[i], &keys[i]) {
                p = p + 1;
            } else {
                found = true;
            }
        }
        proof {
            lemma_insert_ranked(before, p as int, g[i as int]);
        }
        idx.insert(p, i);
        assert(picked(g, idx@) =~= before.insert(p as int, g[i as int]));
        assert forall|t: SentenceView| #[trigger]
            picked(g, idx@).contains(t) <==> exists|k: int| 0 <= k < i + 1 && g[k] == t by {
            let after = picked(g, idx@);
            if before.contains(t) {
                let m = choose|m: int| 0 <= m < before.len() && before[m] == t;
                if m < p {
                    assert(after[m] == t);
                } else {
                    assert(after[m + 1] == t);
                }
            }
            if after.contains(t) {
                let m = choose|m: int| 0 <= m < after.len() && after[m] == t;
                if m < p {
                    assert(before[m] == t);
                } else if m > p {
                    assert(before[m - 1] == t);
                }
            }
            assert(after[p as int] == g[i as int]);
        }
        assert(picked(g, idx@).no_duplicates()) by {
            let after = picked(g, idx@);
            assert(!before.contains(g[i as int]));
            assert forall|a: int, b: int|
                0 <= a < after.len() && 0 <= b < after.len() && a != b implies after[a]
                != after[b] by {
                if a != p && b != p {
                    let a1 = if a < p { a } else { a - 1 };
                    let b1 = if b < p { b } else { b - 1 };
                    assert(after[a] == before[a1] && after[b] == before[b1]);
                } else if a == p {
                    let b1 = if b < p { b } else { b - 1 };
                    assert(after[b] == before[b1]);
                } else {
                    let a1 = if a < p { a } else { a - 1 };
                    assert(after[a] == before[a1]);
                }
            }
        }
        i = i + 1;
    }
    assert(picked(g, idx@).to_set() =~= g.to_set());
    idx
}

/// The text of each sentence of `gen`, from the highest ranked down: longer
/// sentences first, sentences of equal length in dictionary order of their
/// text.
pub fn rank_sentences(gen: &Vec<Sentence>, with_display_unused: bool) -> (r: Vec<String>)
    requires
        views(gen@).no_duplicates(),
    ensures
        shows_ranking(r@, views(gen@).to_set(), with_display_unused),
{
    let ghost g = views(gen@);
    let idx = rank_order(gen);
    let ghost order = picked(g, idx@);
    let mut out: Vec<String> = Vec::new();
    let mut m: usize = 0;
    while m < idx.len()
        invariant
            g == views(gen@),
            order == picked(g, idx@),
            forall|q: int| 0 <= q < idx@.len() ==> idx@[q] < gen@.len(),
            m <= idx@.len(),
            out@.len() == m,
            forall|q: int| 0 <= q < m ==> #[trigger] out@[q]@ == display_text(order[q], with_display_unused),
        decreases idx@.len() - m,
    {
        out.push(gen[idx[m]].display(with_display_unused));
        proof {
            lemma_picked_index(g, idx@, m as int);
        }
        m = m + 1;
    }
    assert(is_ranking(order, g.to_set()) && out@.len() == order.len());
    out
}

/// The sentences of `g` picked by `idx` are the sentences at those indices.
proof fn lemma_picked_index(g: Seq<SentenceView>, idx: Seq<usize>, m: int)
    requires
        0 <= m < idx.len(),
    ensures
        picked(g, idx)[m] == g[idx[m] as int],
{
}

/// The words of `lines` that can be spelled from `letters`, in their order.
pub open spec fn base_words_of(lines: Seq<Seq<char>>, letters: Seq<char>) -> Seq<Seq<char>>
    decreases lines.len(),
{
    if lines.len() == 0 {
        Seq::empty()
    } else {
        let rest = base_words_of(lines.drop_last(), letters);
        if fits(lines.last(), letters) {
            rest.push(lines.last())
        } else {
            rest
        }
    }
}

/// The views of a sequence of strings.
pub open spec fn string_views(lines: Seq<String>) -> Seq<Seq<char>> {
    lines.map_values(|l: String| l@)
}

/// The dictionary words among `lines` that can be spelled from `letters`.
pub fn words_for_letters_in_file(lines: Vec<String>, letters: &Vec<char>) -> (r: Vec<BaseWord>)
    ensures
        word_views(r@) == base_words_of(string_views(lines@), letters@),
{
    let ghost ls = string_views(lines@);
    let mut found: Vec<BaseWord> = Vec::new();
    let mut i: usize = 0;
    while i < lines.len()
        invariant
            ls == string_views(lines@),
            i <= ls.len(),
            word_views(found@) == base_words_of(ls.take(i as int), letters@),
        decreases ls.len() - i,
    {
        let word = BaseWord::new(lines[i].clone());
        assert(ls.take(i + 1).drop_last() =~= ls.take(i as int));
        assert(ls.take(i + 1).last() == word@);
        if word.word_can_build_from_letters(letters) {
            let ghost prev = found@;
            found.push(word);
            assert(word_views(found@) =~= word_views(prev).push(ls[i as int]));
        }
        i = i + 1;
    }
    assert(ls.take(i as int) =~= ls);
    found
}

/// Every sentence of `sentence_length_in_words` words that can be spelled
/// from `letters` with the dictionary words `words`, as text, from the
/// highest ranked down; a sentence that could grow no more before reaching
/// that count is kept as it stands. Each word of `words` must fit `letters`.
pub fn sentences_for_letters(
    words: &Vec<BaseWord>,
    letters: &Vec<char>,
    sentence_length_in_words: usize,
    with_display_unused: bool,
) -> (r: Vec<String>)
    requires
        sentence_length_in_words >= 1,
        all_fit(word_views(words@), letters@),
    ensures
        shows_ranking(
            r@,
            generation(word_views(words@), letters@, (sentence_length_in_words - 1) as nat),
            with_display_unused,
        ),
{
    let (found, _sizes) = sentences_for_letters_with_progress(
        words,
        letters,
        sentence_length_in_words,
        with_display_unused,
    );
    found
}

/// The same search as `sentences_for_letters`, which also reports how many
/// sentences each generation held before it was grown: the entry at index
/// `i` is the size of the generation reached after `i` steps.
pub fn sentences_for_letters_with_progress(
    words: &Vec<BaseWord>,
    letters: &Vec<char>,
    sentence_length_in_words: usize,
    with_display_unused: bool,
) -> (r: (Vec<String>, Vec<usize>))
    requires
        sentence_length_in_words >= 1,
        all_fit(word_views(words@), letters@),
    ensures
        shows_ranking(
            r.0@,
            generation(word_views(words@), letters@, (sentence_length_in_words - 1) as nat),
            with_display_unused,
        ),
        r.1@.len() == sentence_length_in_words - 1,
        forall|i: int|
            0 <= i < r.1@.len() ==> #[trigger] r.1@[i] == generation(
                word_views(words@),
                letters@,
                i as nat,
            ).len(),
{
    let ghost base = word_views(words@);
    let mut sentences_found = seed_sentences(words, letters);
    let mut sizes: Vec<usize> = Vec::new();
    let mut i: usize = 1;
    while i < sentence_length_in_words
        invariant
            base == word_views(words@),
            1 <= i <= sentence_length_in_words,
            views(sentences_found@).no_duplicates(),
            views(sentences_found@).to_set() == generation(base, letters@, (i - 1) as nat),
            sizes@.len() == i - 1,
            forall|k: int|
                0 <= k < sizes@.len() ==> #[trigger] sizes@[k] == generation(
                    base,
                    letters@,
                    k as nat,
                ).len(),
        decreases sentence_length_in_words - i,
    {
        proof {
            views(sentences_found@).unique_seq_to_set();
        }
        sizes.push(sentences_found.len());
        sentences_found = expand_sentences_found(words, &sentences_found);
        i = i + 1;
    }
    (rank_sentences(&sentences_found, with_display_unused), sizes)
}

/// The letters of all the words, one word after the other.
pub open spec fn flatten(ws: Seq<Seq<char>>) -> Seq<char>
    decreases ws.len(),
{
    if ws.len() == 0 {
        Seq::empty()
    } else {
        flatten(ws.drop_last()) + ws.last()
    }
}

/// Inserting a word anywhere adds the same letters as appending it.
pub proof fn lemma_flatten_insert(ws: Seq<Seq<char>>, p: int, w: Seq<char>)
    requires
        0 <= p <= ws.len(),
    ensures
        flatten(ws.insert(p, w)).to_multiset() == (flatten(ws) + w).to_multiset(),
    decreases ws.len(),
{
    broadcast use vstd::seq_lib::lemma_multiset_commutative;

    if p == ws.len() {
        assert(ws.insert(p, w).drop_last() =~= ws);
    } else {
        lemma_flatten_insert(ws.drop_last(), p, w);
        assert(ws.insert(p, w).drop_last() =~= ws.drop_last().insert(p, w));
        assert(ws.insert(p, w).last() == ws.last());
        assert(flatten(ws.insert(p, w)).to_multiset() =~= (flatten(ws) + w).to_multiset());
    }
}

/// What holds of every sentence of the generation reached after `n` steps:
/// its unused letters are the letters left once its words are consumed in
/// canonical order, its length is theirs, and a sentence still able to grow
/// has one word more than the steps taken while a marked one has at most as
/// many words as steps.
pub open spec fn generation_member(letters: Seq<char>, n: nat, s: SentenceView) -> bool {
    &&& s.remaining == consume(letters, flatten(s.words))
    &&& s.length == total_len(s.words)
    &&& !s.exhausted ==> s.words.len() == n + 1
    &&& s.exhausted ==> s.words.len() <= n
}

/// Every sentence of each generation satisfies `generation_member`.
pub proof fn lemma_generation_members(base: Seq<Seq<char>>, letters: Seq<char>, n: nat)
    ensures
        forall|s: SentenceView| #[trigger]
            generation(base, letters, n).contains(s) ==> generation_member(letters, n, s),
    decreases n,
{
    if n == 0 {
        assert forall|s: SentenceView| #[trigger]
            generation(base, letters, n).contains(s) implies generation_member(letters, n, s) by {
            let k = choose|k: int| 0 <= k < base.len() && s == start(base[k], letters);
            assert(seq![base[k]].drop_last() =~= Seq::<Seq<char>>::empty());
            assert(flatten(Seq::<Seq<char>>::empty()) =~= Seq::<char>::empty());
            assert(flatten(seq![base[k]]) =~= base[k]);
            lemma_total_len_single(base[k]);
        }
    } else {
        let m = (n - 1) as nat;
        lemma_generation_members(base, letters, m);
        assert forall|t: SentenceView| #[trigger]
            generation(base, letters, n).contains(t) implies generation_member(letters, n, t) by {
            let s = choose|s: SentenceView|
                generation(base, letters, m).contains(s) && produces(s, base, t);
            assert(generation_member(letters, m, s));
            if can_grow(s, base) {
                let k = choose|k: int|
                    0 <= k < base.len() && fits(base[k], s.remaining) && t == extended(
                        s,
                        base[k],
                    );
                let w = base[k];
                let p = insert_pos_from(s.words, w.len(), 0);
                lemma_insert_pos_bounds(s.words, w.len(), 0);
                lemma_flatten_insert(s.words, p, w);
                lemma_consume_concat(letters, flatten(s.words), w);
                lemma_consume_permutation(letters, flatten(s.words) + w, flatten(t.words));
            }
        }
    }
}

/// Within a generation the canonical word sequence determines the sentence:
/// two sentences with the same words are the same sentence. So sentences that
/// different paths reach with the same canonical words are kept once.
pub proof fn lemma_words_determine_sentence(
    base: Seq<Seq<char>>,
    letters: Seq<char>,
    n: nat,
    s: SentenceView,
    t: SentenceView,
)
    requires
        generation(base, letters, n).contains(s),
        generation(base, letters, n).contains(t),
        s.words == t.words,
    ensures
        s == t,
{
    lemma_generation_members(base, letters, n);
    assert(generation_member(letters, n, s));
    assert(generation_member(letters, n, t));
}

/// Every word of `base_words_of(lines, letters)` fits `letters`.
pub proof fn lemma_base_words_fit(lines: Seq<Seq<char>>, letters: Seq<char>)
    ensures
        forall|k: int|
            0 <= k < base_words_of(lines, letters).len() ==> fits(
                #[trigger] base_words_of(lines, letters)[k],
                letters,
            ),
    decreases lines.len(),
{
    if lines.len() > 0 {
        let rest = base_words_of(lines.drop_last(), letters);
        lemma_base_words_fit(lines.drop_last(), letters);
        assert forall|k: int|
            0 <= k < base_words_of(lines, letters).len() implies fits(
            #[trigger] base_words_of(lines, letters)[k],
            letters,
        ) by {
            if k < rest.len() {
                assert(base_words_of(lines, letters)[k] == rest[k]);
            }
        }
    }
}

/// Every word of every sentence of a generation is a word of `base`.
pub proof fn lemma_generation_words_in_base(base: Seq<Seq<char>>, letters: Seq<char>, n: nat)
    ensures
        forall|s: SentenceView, i: int|
            #![trigger generation(base, letters, n).contains(s), s.words[i]]
            generation(base, letters, n).contains(s) && 0 <= i < s.words.len() ==> base.contains(
                s.words[i],
            ),
    decreases n,
{
    if n == 0 {
        assert forall|s: SentenceView, i: int|
            generation(base, letters, n).contains(s) && 0 <= i < s.words.len() implies base.contains(
            s.words[i]) by {
            let k = choose|k: int| 0 <= k < base.len() && s == start(base[k], letters);
            assert(s.words[i] == base[k]);
        }
    } else {
        let m = (n - 1) as nat;
        lemma_generation_words_in_base(base, letters, m);
        assert forall|t: SentenceView, i: int|
            generation(base, letters, n).contains(t) && 0 <= i < t.words.len() implies base.contains(
            t.words[i]) by {
            let s = choose|s: SentenceView|
                generation(base, letters, m).contains(s) && produces(s, base, t);
            if can_grow(s, base) {
                let k = choose|k: int|
                    0 <= k < base.len() && fits(base[k], s.remaining) && t == extended(
                        s,
                        base[k],
                    );
                let p = insert_pos_from(s.words, base[k].len(), 0);
                lemma_insert_pos_bounds(s.words, base[k].len(), 0);
                if i < p {
                    assert(t.words[i] == s.words[i]);
                } else if i > p {
                    assert(t.words[i] == s.words[i - 1]);
                } else {
                    assert(t.words[i] == base[k]);
                }
            } else {
                assert(t.words[i] == s.words[i]);
            }
        }
    }
}

/// A dictionary word longer than the bag of letters is left out of the base
/// words, and so appears in no sentence of any generation of the search.
pub proof fn lemma_long_word_never_appears(
    lines: Seq<Seq<char>>,
    letters: Seq<char>,
    w: Seq<char>,
    n: nat,
    s: SentenceView,
)
    requires
        w.len() > letters.len(),
    ensures
        !base_words_of(lines, letters).contains(w),
        generation(base_words_of(lines, letters), letters, n).contains(s) ==> !s.words.contains(w),
{
    let base = base_words_of(lines, letters);
    lemma_base_words_fit(lines, letters);
    if base.contains(w) {
        let k = choose|k: int| 0 <= k < base.len() && base[k] == w;
        assert(fits(base[k], letters));
        lemma_consume_len(letters, w);
    }
    lemma_generation_words_in_base(base, letters, n);
    if generation(base, letters, n).contains(s) && s.words.contains(w) {
        let i = choose|i: int| 0 <= i < s.words.len() && s.words[i] == w;
        assert(base.contains(s.words[i]));
    }
}

/// A single word joined with nothing else is the word itself.
pub proof fn lemma_join_single(w: Seq<char>)
    ensures
        join(seq![w]) == w,
{
}

/// Some text of `texts` is `x`.
pub open spec fn shown(texts: Seq<String>, x: Seq<char>) -> bool {
    exists|m: int| 0 <= m < texts.len() && texts[m]@ == x
}

/// With one word per sentence, the texts shown without notices are exactly
/// the words of `base`, each once, in the order the ranking gives them.
pub proof fn lemma_single_word_sentences(base: Seq<Seq<char>>, letters: Seq<char>, texts: Seq<String>)
    requires
        shows_ranking(texts, generation(base, letters, 0), false),
    ensures
        forall|m: int| 0 <= m < texts.len() ==> base.contains(#[trigger] texts[m]@),
        forall|k: int| 0 <= k < base.len() ==> #[trigger] shown(texts, base[k]),
        forall|a: int, b: int| 0 <= a < b < texts.len() ==> texts[a]@ != texts[b]@,
{
    let order = choose|order: Seq<SentenceView>|
        is_ranking(order, generation(base, letters, 0)) && texts.len() == order.len() && forall|
            m: int,
        | 0 <= m < order.len() ==> #[trigger] texts[m]@ == display_text(order[m], false);
    assert forall|m: int| #![trigger order[m]] 0 <= m < texts.len() implies exists|k: int|
        0 <= k < base.len() && order[m] == #[trigger] start(base[k], letters) by {
        assert(order.to_set().contains(order[m]));
    }
    assert forall|m: int| 0 <= m < texts.len() implies base.contains(#[trigger] texts[m]@) by {
        let k = choose|k: int| 0 <= k < base.len() && order[m] == start(base[k], letters);
        lemma_join_single(base[k]);
        assert(texts[m]@ == display_text(order[m], false));
    }
    assert forall|k: int| 0 <= k < base.len() implies #[trigger] shown(texts, base[k]) by {
        assert(seeds(base, letters).contains(start(base[k], letters)));
        assert(order.to_set().contains(start(base[k], letters)));
        let m = choose|m: int| 0 <= m < order.len() && order[m] == start(base[k], letters);
        lemma_join_single(base[k]);
        assert(texts[m]@ == display_text(order[m], false));
    }
    assert forall|a: int, b: int| 0 <= a < b < texts.len() implies texts[a]@ != texts[b]@ by {
        let ka = choose|k: int| 0 <= k < base.len() && order[a] == start(base[k], letters);
        let kb = choose|k: int| 0 <= k < base.len() && order[b] == start(base[k], letters);
        lemma_join_single(base[ka]);
        lemma_join_single(base[kb]);
        assert(texts[a]@ == display_text(order[a], false));
        assert(texts[b]@ == display_text(order[b], false));
        assert(order[a] != order[b]);
    }
}

/// `text` shows a sentence of `g` in which the word `w` does not occur.
pub open spec fn shows_sentence_without(
    g: Set<SentenceView>,
    text: Seq<char>,
    w: Seq<char>,
    with_unused: bool,
) -> bool {
    exists|s: SentenceView| g.contains(s) && !s.words.contains(w) && text == display_text(s, with_unused)
}

/// A dictionary word longer than the bag of letters occurs in none of the
/// sentences whose texts the search returns.
pub proof fn lemma_long_word_not_shown(
    lines: Seq<Seq<char>>,
    letters: Seq<char>,
    w: Seq<char>,
    n: nat,
    texts: Seq<String>,
    with_unused: bool,
)
    requires
        w.len() > letters.len(),
        shows_ranking(texts, generation(base_words_of(lines, letters), letters, n), with_unused),
    ensures
        forall|m: int|
            0 <= m < texts.len() ==> #[trigger] shows_sentence_without(
                generation(base_words_of(lines, letters), letters, n),
                texts[m]@,
                w,
                with_unused,
            ),
{
    let g = generation(base_words_of(lines, letters), letters, n);
    let order = choose|order: Seq<SentenceView>|
        is_ranking(order, g) && texts.len() == order.len() && forall|m: int|
            0 <= m < order.len() ==> #[trigger] texts[m]@ == display_text(order[m], with_unused);
    assert forall|m: int| 0 <= m < texts.len() implies #[trigger] shows_sentence_without(
        g,
        texts[m]@,
        w,
        with_unused,
    ) by {
        assert(order.to_set().contains(order[m]));
        lemma_long_word_never_appears(lines, letters, w, n, order[m]);
        assert(texts[m]@ == display_text(order[m], with_unused));
    }
}

} // verus!
