//! The native representation of a MIF: the words of a memory block, kept as
//! runs of equal words, with the addresses at which named memory areas begin.

use crate::bytes::{lemma_value_bound, lemma_whole_words, read_lsb_first, read_msb_first, words};
use crate::error::Error;
use crate::first::First;
use crate::runs::{
    accepted, collapsed, fits, lemma_accepted, lemma_accepted_fit, lemma_last_le_total,
    lemma_pushed, lemma_pushed_all, lemma_pushed_within, lemma_total_singles, lemma_total_take,
    lemma_unfold_singles, pushed, pushed_all, singles, total, unfold, within,
};
use crate::layout::{address_pads, comments, content, head, line, word_pads};
use crate::text::{count_digits, push_digits, push_padded};
use crate::width::{
    align_of, checked_shl, in_range, lemma_max_value_of, lemma_shl_one, max_value_of,
    wrapping_sub, MAX_ALIGN, MAX_WIDTH,
};
use vstd::prelude::*;
use vstd::slice::slice_subrange;
use vstd::string::*;

verus! {

/// What a [`Mif`] holds, as plain values.
pub struct MifView {
    /// Word width in bits.
    pub width: nat,
    /// Depth in words: the count of all words pushed so far.
    pub depth: nat,
    /// Words and their bulk in given order.
    pub words: Seq<(u128, usize)>,
    /// Addresses and names of memory areas in given order.
    pub areas: Seq<(nat, Seq<char>)>,
}

impl MifView {
    /// What every [`Mif`] keeps to: a width in range, collapsed runs of words
    /// that fit the width and count no more than the depth, and memory areas
    /// at ascending addresses up to the depth.
    pub open spec fn wf(self) -> bool {
        &&& in_range(self.width)
        &&& self.depth <= usize::MAX
        &&& collapsed(self.words)
        &&& within(self.words, max_value_of(self.width))
        &&& total(self.words) <= self.depth
        &&& forall|i: int| 0 <= i < self.areas.len() ==> (#[trigger] self.areas[i]).0 <= self.depth
        &&& forall|i: int, j: int|
            0 <= i <= j < self.areas.len() ==> (#[trigger] self.areas[i]).0 <= (
            #[trigger] self.areas[j]).0
    }

    /// The empty MIF of a width.
    pub open spec fn empty(width: nat) -> MifView {
        MifView { width, depth: 0, words: Seq::empty(), areas: Seq::empty() }
    }

    /// Whether `bulk` words `word` can be pushed: no word at all always can,
    /// else the word has to fit the width.
    pub open spec fn accepts(self, word: u128, bulk: usize) -> bool {
        bulk == 0 || word <= max_value_of(self.width)
    }

    /// The MIF after pushing `bulk` words `word`. The depth counts them even
    /// where they are not accepted; the words grow only where they are.
    pub open spec fn push(self, word: u128, bulk: usize) -> MifView {
        MifView {
            depth: self.depth + bulk as nat,
            words: if self.accepts(word, bulk) {
                pushed(self.words, word, bulk)
            } else {
                self.words
            },
            ..self
        }
    }

    /// The MIF after pushing each run of `runs` in turn.
    pub open spec fn push_all(self, runs: Seq<(u128, usize)>) -> MifView
        decreases runs.len(),
    {
        if runs.len() == 0 {
            self
        } else {
            self.push_all(runs.drop_last()).push(runs.last().0, runs.last().1)
        }
    }

    /// The MIF after addressing a memory area at the current depth.
    pub open spec fn area(self, area: Seq<char>) -> MifView {
        MifView { areas: self.areas.push((self.depth, area)), ..self }
    }

    /// The MIF after joining in `runs`, and how the join ends. The runs are
    /// pushed one after the other, up to the first that is not accepted:
    /// that one still counts for the depth, and is refused with the depth
    /// it was pushed at.
    pub open spec fn join(self, runs: Seq<(u128, usize)>) -> (MifView, Result<(), Error>) {
        let count = accepted(runs, max_value_of(self.width)) as int;
        if count == runs.len() {
            (self.push_all(runs), Ok(()))
        } else {
            (
                self.push_all(runs.take(count + 1)),
                Err(
                    Error::ValueOutOfWidth(
                        (self.depth + total(runs.take(count))) as usize,
                        self.width as usize,
                    ),
                ),
            )
        }
    }

    /// The MIF after reading `depth` words from `bytes`, the bytes that are
    /// left, and how the read ends. The words are the whole words at the
    /// front of `bytes`, `depth` of them at most, and are joined in as runs
    /// of one word each. The bytes of a word that is refused are read; where
    /// less than `depth` words are there and none is refused, no bytes are
    /// left and the missing words are counted.
    pub open spec fn read(self, bytes: Seq<u8>, depth: usize, first: First) -> (
        MifView,
        Seq<u8>,
        Result<(), Error>,
    ) {
        let align = align_of(self.width);
        let all = words(bytes, align, first);
        let runs = singles(
            all.take(
                if depth <= all.len() {
                    depth as int
                } else {
                    all.len() as int
                },
            ),
        );
        let count = accepted(runs, max_value_of(self.width)) as int;
        if count < runs.len() {
            (self.join(runs).0, bytes.skip((count + 1) * align), self.join(runs).1)
        } else if runs.len() < depth {
            (
                self.join(runs).0,
                Seq::empty(),
                Err(Error::MissingWords((depth - runs.len()) as usize)),
            )
        } else {
            (self.join(runs).0, bytes.skip(depth * align), Ok(()))
        }
    }

    /// The MIF as text: width, depth and radixes; then the memory areas as
    /// comments, if asked for and if there are any, with an empty line behind
    /// them; then the words run by run between an opening and a closing line.
    pub open spec fn text(self, areas: bool) -> Seq<char> {
        let address_pads = address_pads(self.depth);
        head(self.width, self.depth) + (if areas && self.areas.len() > 0 {
            comments(self.areas, address_pads) + "\n"@
        } else {
            Seq::empty()
        }) + "CONTENT BEGIN\n"@ + content(self.words, address_pads, word_pads(self.width))
            + "END;\n"@
    }

    /// A push keeps a MIF well-formed as long as the depth fits the address
    /// space.
    pub proof fn lemma_push(self, word: u128, bulk: usize)
        requires
            self.wf(),
            self.depth + bulk <= usize::MAX,
        ensures
            self.push(word, bulk).wf(),
    {
        lemma_pushed(self.words, word, bulk);
        if self.accepts(word, bulk) && bulk > 0 {
            lemma_pushed_within(self.words, word, bulk, max_value_of(self.width));
        }
    }

    /// Pushes, whatever they collapse into and whether accepted or not, keep
    /// a MIF well-formed and add up in its depth. Where all are accepted,
    /// their words follow the words that were there, in the order of the
    /// pushes.
    pub proof fn lemma_push_all(self, runs: Seq<(u128, usize)>)
        requires
            self.wf(),
            self.depth + total(runs) <= usize::MAX,
        ensures
            self.push_all(runs).wf(),
            collapsed(self.push_all(runs).words),
            self.push_all(runs).width == self.width,
            self.push_all(runs).areas == self.areas,
            self.push_all(runs).depth == self.depth + total(runs),
            accepted(runs, max_value_of(self.width)) == runs.len() ==> {
                &&& self.push_all(runs).words == pushed_all(self.words, runs)
                &&& unfold(self.push_all(runs).words) == unfold(self.words) + unfold(runs)
            },
        decreases runs.len(),
    {
        if runs.len() > 0 {
            let front = runs.drop_last();
            let max = max_value_of(self.width);
            self.lemma_push_all(front);
            self.push_all(front).lemma_push(runs.last().0, runs.last().1);
            if accepted(runs, max) == runs.len() {
                lemma_accepted_fit(runs, max);
                assert forall|i: int| 0 <= i < front.len() implies fits(#[trigger] front[i], max) by {
                    assert(front[i] == runs[i]);
                }
                lemma_accepted(front, max, front.len());
                lemma_total_take(runs, front.len() as int);
                assert(runs.take(front.len() as int) =~= front);
                lemma_pushed_all(self.words, runs);
            }
        } else {
            assert(unfold(self.words) + unfold(runs) =~= unfold(self.words));
        }
    }

    /// A join keeps a MIF well-formed and ends well if and only if all runs
    /// fit. Then the depth has grown by the words of the runs, which follow
    /// the words that were there.
    pub proof fn lemma_join(self, runs: Seq<(u128, usize)>)
        requires
            self.wf(),
            self.depth + total(runs) <= usize::MAX,
        ensures
            self.join(runs).0.wf(),
            self.join(runs).0.width == self.width,
            self.join(runs).0.areas == self.areas,
            self.join(runs).1 is Ok <==> forall|i: int|
                0 <= i < runs.len() ==> fits(#[trigger] runs[i], max_value_of(self.width)),
            self.join(runs).1 is Ok ==> {
                &&& self.join(runs).0.depth == self.depth + total(runs)
                &&& unfold(self.join(runs).0.words) == unfold(self.words) + unfold(runs)
            },
    {
        let max = max_value_of(self.width);
        let count = accepted(runs, max) as int;
        lemma_accepted_fit(runs, max);
        if count == runs.len() {
            self.lemma_push_all(runs);
        } else {
            lemma_total_take(runs, count + 1);
            self.lemma_push_all(runs.take(count + 1));
        }
    }

    /// A read keeps a MIF well-formed and ends well if and only if `depth`
    /// whole words are there and all fit the width. Then the depth has grown
    /// by `depth`, the bytes of that many words are read, and the words
    /// follow the words that were there.
    pub proof fn lemma_read(self, bytes: Seq<u8>, depth: usize, first: First)
        requires
            self.wf(),
            self.depth + depth <= usize::MAX,
        ensures
            self.read(bytes, depth, first).0.wf(),
            self.read(bytes, depth, first).0.width == self.width,
            self.read(bytes, depth, first).0.areas == self.areas,
            self.read(bytes, depth, first).2 is Ok <==> {
                &&& depth <= words(bytes, align_of(self.width), first).len()
                &&& forall|i: int|
                    0 <= i < depth ==> (#[trigger] words(bytes, align_of(self.width), first)[i])
                        <= max_value_of(self.width)
            },
            self.read(bytes, depth, first).2 is Ok ==> {
                &&& self.read(bytes, depth, first).0.depth == self.depth + depth
                &&& self.read(bytes, depth, first).1 == bytes.skip(depth * align_of(self.width))
                &&& unfold(self.read(bytes, depth, first).0.words) == unfold(self.words) + words(
                    bytes,
                    align_of(self.width),
                    first,
                ).take(depth as int)
            },
    {
        let max = max_value_of(self.width);
        let all = words(bytes, align_of(self.width), first);
        let found = all.take(
            if depth <= all.len() {
                depth as int
            } else {
                all.len() as int
            },
        );
        let runs = singles(found);
        lemma_total_singles(found);
        lemma_unfold_singles(found);
        lemma_accepted_fit(runs, max);
        self.lemma_join(runs);
        if self.read(bytes, depth, first).2 is Ok {
            assert forall|i: int| 0 <= i < depth implies (#[trigger] all[i]) <= max by {
                assert(fits(runs[i], max));
            }
        }
        if depth <= all.len() && forall|i: int| 0 <= i < depth ==> (#[trigger] all[i]) <= max {
            assert forall|i: int| 0 <= i < runs.len() implies fits(#[trigger] runs[i], max) by {
                assert(runs[i].0 == all[i]);
            }
        }
    }
}

/// Native MIF representation.
#[derive(Debug, PartialEq, Eq)]
pub struct Mif {
    width: usize,
    depth: usize,
    words: Vec<(u128, usize)>,
    areas: Vec<(usize, String)>,
}

impl View for Mif {
    type V = MifView;

    closed spec fn view(&self) -> MifView {
        MifView {
            width: self.width as nat,
            depth: self.depth as nat,
            words: self.words@,
            areas: areas_view(self.areas@),
        }
    }
}

/// Addresses and names of memory areas as plain values.
pub open spec fn areas_view(areas: Seq<(usize, String)>) -> Seq<(nat, Seq<char>)> {
    Seq::new(areas.len(), |i: int| (areas[i].0 as nat, areas[i].1@))
}

impl Clone for Mif {
    fn clone(&self) -> (mif: Mif)
        ensures
            mif@ == self@,
    {
        proof {
            use_type_invariant(self);
        }
        let mut words: Vec<(u128, usize)> = Vec::new();
        let mut at: usize = 0;
        while at < self.words.len()
            invariant
                at <= self.words@.len(),
                words@ == self.words@.take(at as int),
            decreases self.words@.len() - at,
        {
            words.push(self.words[at]);
            assert(words@ =~= self.words@.take(at + 1));
            at += 1;
        }
        let mut areas: Vec<(usize, String)> = Vec::new();
        let mut at: usize = 0;
        while at < self.areas.len()
            invariant
                at <= self.areas@.len(),
                areas@.len() == at,
                areas_view(areas@) == areas_view(self.areas@).take(at as int),
            decreases self.areas@.len() - at,
        {
            let ghost before = areas@;
            let area = &self.areas[at];
            areas.push((area.0, area.1.clone()));
            proof {
                let next = areas_view(self.areas@).take(at + 1);
                assert forall|i: int| 0 <= i < next.len() implies areas_view(areas@)[i]
                    == next[i] by {
                    if i < at {
                        assert(areas_view(areas@)[i] == areas_view(before)[i]);
                        assert(next[i] == areas_view(self.areas@).take(at as int)[i]);
                    }
                }
                assert(areas_view(areas@) =~= next);
            }
            at += 1;
        }
        assert(words@ =~= self.words@);
        assert(areas_view(areas@) =~= areas_view(self.areas@));
        Mif { width: self.width, depth: self.depth, words, areas }
    }
}

impl Mif {
    /// Every MIF is well-formed.
    #[verifier::type_invariant]
    pub open spec fn wf(&self) -> bool {
        self@.wf()
    }

    /// Creates new MIF with word `width`.
    pub fn new(width: usize) -> (mif: Result<Mif, Error>)
        ensures
            in_range(width as nat) ==> mif is Ok && mif->Ok_0@ == MifView::empty(width as nat),
            !in_range(width as nat) ==> mif == Err::<Mif, Error>(
                Error::WidthOutOfRange(width, MAX_WIDTH),
            ),
    {
        if 1 <= width && width <= Self::max_width() {
            let mif = Mif { width, depth: 0, words: Vec::new(), areas: Vec::new() };
            assert(mif@.areas =~= Seq::empty());
            Ok(mif)
        } else {
            Err(Error::WidthOutOfRange(width, Self::max_width()))
        }
    }

    /// Maximum word width in bits.
    pub fn max_width() -> (width: usize)
        ensures
            width == MAX_WIDTH,
    {
        Self::max_align() * 8
    }

    /// Maximum word width in bytes.
    pub fn max_align() -> (align: usize)
        ensures
            align == MAX_ALIGN,
    {
        16
    }

    /// Maximum word value depending on `width()`.
    pub fn max_value(&self) -> (max: u128)
        ensures
            max == max_value_of(self@.width),
    {
        proof {
            use_type_invariant(self);
            lemma_max_value_of(self@.width);
        }
        let bits = self.width as u32;
        let one = match checked_shl(1, bits) {
            Some(one) => {
                proof {
                    lemma_shl_one(bits);
                }
                one
            },
            None => 0,
        };
        wrapping_sub(one, 1)
    }

    /// Word width in bits.
    pub fn width(&self) -> (width: usize)
        ensures
            width == self@.width,
            in_range(width as nat),
    {
        proof {
            use_type_invariant(self);
        }
        self.width
    }

    /// Word width in bytes.
    pub fn align(&self) -> (align: usize)
        ensures
            align == align_of(self@.width),
            1 <= align <= MAX_ALIGN,
    {
        proof {
            use_type_invariant(self);
        }
        (self.width + 7) / 8
    }

    /// MIF depth in words.
    pub fn depth(&self) -> (depth: usize)
        ensures
            depth == self@.depth,
    {
        self.depth
    }

    /// Reference to words and their bulk in given order.
    pub fn words(&self) -> (words: &Vec<(u128, usize)>)
        ensures
            words@ == self@.words,
            self@.wf(),
    {
        proof {
            use_type_invariant(self);
        }
        &self.words
    }

    /// Reference to addresses and names of memory areas in given order.
    pub fn areas(&self) -> (areas: &Vec<(usize, String)>)
        ensures
            areas_view(areas@) == self@.areas,
    {
        &self.areas
    }

    /// Addresses memory `area` at current `depth()`.
    pub fn area(&mut self, area: String)
        ensures
            final(self)@ == old(self)@.area(area@),
    {
        proof {
            use_type_invariant(&*self);
        }
        let mut areas = Vec::new();
        core::mem::swap(&mut areas, &mut self.areas);
        areas.push((self.depth, area));
        assert(areas_view(areas@) =~= old(self)@.area(area@).areas);
        self.areas = areas;
    }

    /// Pushes `word` or add up its `bulk`.
    ///
    /// The depth grows by `bulk` in any case. No words are added where `bulk`
    /// is zero, which never fails. Else `word` has to fit the width, and adds
    /// to the bulk of the last word where it repeats it. A word that does not
    /// fit is refused with its depth and the width, after the depth has grown.
    pub fn push(&mut self, word: u128, bulk: usize) -> (pushed: Result<(), Error>)
        requires
            old(self)@.depth + bulk <= usize::MAX,
        ensures
            final(self)@ == old(self)@.push(word, bulk),
            old(self)@.accepts(word, bulk) ==> pushed is Ok,
            !old(self)@.accepts(word, bulk) ==> pushed == Err::<(), Error>(
                Error::ValueOutOfWidth(old(self)@.depth as usize, old(self)@.width as usize),
            ),
    {
        proof {
            use_type_invariant(&*self);
            self@.lemma_push(word, bulk);
            lemma_pushed(self@.words, word, bulk);
        }
        let depth = self.depth;
        assert(MifView { depth: (depth + bulk) as nat, ..self@ }.wf());
        self.depth = depth + bulk;
        if bulk == 0 {
            return Ok(());
        }
        let len = self.words.len();
        if len > 0 && self.words[len - 1].0 == word {
            proof {
                lemma_last_le_total(self.words@);
            }
            let last = self.words[len - 1].1;
            let mut words = Vec::new();
            core::mem::swap(&mut words, &mut self.words);
            words.set(len - 1, (word, last + bulk));
            self.words = words;
            Ok(())
        } else if word > self.max_value() {
            Err(Error::ValueOutOfWidth(depth, self.width))
        } else {
            let mut words = Vec::new();
            core::mem::swap(&mut words, &mut self.words);
            words.push((word, bulk));
            self.words = words;
            Ok(())
        }
    }

    /// Joins in `other` MIF.
    ///
    /// The words of `other` are pushed run by run, up to the first word that
    /// does not fit the width. That word is refused as `push()` refuses it;
    /// what was pushed before it stays.
    pub fn join(&mut self, other: &Mif) -> (joined: Result<(), Error>)
        requires
            old(self)@.depth + other@.depth <= usize::MAX,
        ensures
            (final(self)@, joined) == old(self)@.join(other@.words),
    {
        proof {
            use_type_invariant(&*self);
            use_type_invariant(other);
        }
        let ghost runs = other@.words;
        let ghost max = max_value_of(self@.width);
        let mut at: usize = 0;
        while at < other.words.len()
            invariant
                at <= runs.len(),
                runs == other.words@,
                other@.wf(),
                total(runs) <= other@.depth,
                max == max_value_of(old(self)@.width),
                old(self)@.wf(),
                old(self)@.depth + other@.depth <= usize::MAX,
                self@ == old(self)@.push_all(runs.take(at as int)),
                forall|i: int| 0 <= i < at ==> fits(#[trigger] runs[i], max),
            decreases runs.len() - at,
        {
            let (word, bulk) = other.words[at];
            proof {
                lemma_total_take(runs, at as int);
                lemma_total_take(runs, at + 1);
                old(self)@.lemma_push_all(runs.take(at as int));
                assert(runs.take(at + 1).drop_last() =~= runs.take(at as int));
            }
            let pushed = self.push(word, bulk);
            if let Err(error) = pushed {
                proof {
                    lemma_accepted(runs, max, at as nat);
                }
                return Err(error);
            }
            at += 1;
        }
        proof {
            lemma_accepted(runs, max, at as nat);
            assert(runs.take(at as int) =~= runs);
        }
        Ok(())
    }

    /// Reads `depth` LSB/MSB-`first` words from `bytes`.
    ///
    /// Each word takes `align()` bytes and is pushed on its own. The bytes of
    /// the words that were pushed are taken off the front of `bytes`, those
    /// of a word that was refused too. Where `bytes` end before `depth` words
    /// were read, the missing words are counted and no bytes are left.
    pub fn read(&mut self, bytes: &mut &[u8], depth: usize, first: First) -> (read: Result<
        (),
        Error,
    >)
        requires
            old(self)@.depth + depth <= usize::MAX,
        ensures
            (final(self)@, final(bytes)@, read) == old(self)@.read(old(bytes)@, depth, first),
    {
        proof {
            use_type_invariant(&*self);
        }
        let align = self.align();
        let ghost from = old(bytes)@;
        let ghost all = words(from, align as nat, first);
        let ghost runs = singles(all);
        let ghost max = max_value_of(self@.width);
        let mut count: usize = 0;
        while count < depth
            invariant
                count <= depth,
                1 <= align <= MAX_ALIGN,
                align == align_of(old(self)@.width),
                from == old(bytes)@,
                all == words(from, align as nat, first),
                runs == singles(all),
                max == max_value_of(old(self)@.width),
                old(self)@.wf(),
                old(self)@.depth + depth <= usize::MAX,
                count * align <= from.len(),
                count <= all.len(),
                bytes@ == from.skip(count * align),
                self@ == old(self)@.push_all(runs.take(count as int)),
                forall|i: int| 0 <= i < count ==> fits(#[trigger] runs[i], max),
            decreases depth - count,
        {
            proof {
                lemma_whole_words(from.len(), align as nat, count as nat);
            }
            let rest: &[u8] = *bytes;
            if rest.len() < align {
                *bytes = slice_subrange(rest, rest.len(), rest.len());
                proof {
                    assert(all.take(all.len() as int) =~= all);
                    lemma_accepted(runs, max, count as nat);
                    assert(runs.take(count as int) =~= runs);
                }
                return Err(Error::MissingWords(depth - count));
            }
            let word = match first {
                First::Lsb => read_lsb_first(rest, align),
                First::Msb => read_msb_first(rest, align),
            };
            *bytes = slice_subrange(rest, align, rest.len());
            proof {
                let found = singles(
                    all.take(
                        if depth <= all.len() {
                            depth as int
                        } else {
                            all.len() as int
                        },
                    ),
                );
                assert((count + 1) * align == count * align + align) by (nonlinear_arith);
                assert(rest@.take(align as int) =~= from.subrange(
                    count * align,
                    (count + 1) * align,
                ));
                lemma_value_bound(rest@.take(align as int), first);
                crate::width::lemma_pow2_grows(8 * align as nat, 128);
                crate::width::lemma_pow2_128();
                assert(word == all[count as int]);
                assert(runs[count as int] == (word, 1usize));
                assert(bytes@ =~= from.skip((count + 1) * align));
                assert(runs.take(count + 1).drop_last() =~= runs.take(count as int));
                lemma_total_singles(all.take(count as int));
                assert(singles(all.take(count as int)) =~= runs.take(count as int));
                old(self)@.lemma_push_all(runs.take(count as int));
                assert(found.take(count + 1) =~= runs.take(count + 1));
                assert(found.take(count as int) =~= runs.take(count as int));
                assert forall|i: int| 0 <= i < count implies fits(#[trigger] found[i], max) by {
                    assert(found[i] == runs[i]);
                }
                if !fits((word, 1usize), max) {
                    lemma_accepted(found, max, count as nat);
                }
            }
            let pushed = self.push(word, 1);
            if let Err(error) = pushed {
                return Err(error);
            }
            count += 1;
        }
        proof {
            lemma_whole_words(from.len(), align as nat, count as nat);
            let found = singles(all.take(depth as int));
            assert(found =~= runs.take(depth as int));
            lemma_accepted(found, max, depth as nat);
        }
        Ok(())
    }

    /// Writes MIF to `lines`.
    ///
    ///   * `lines`: Text, MIF is appended to.
    ///   * `areas`: Whether to comment memory areas as in `-- 0000: name.bin`,
    ///     behind the radixes and ahead of the words.
    pub fn write(&self, lines: &mut String, areas: bool)
        ensures
            final(lines)@ == old(lines)@ + self@.text(areas),
    {
        proof {
            use_type_invariant(self);
        }
        let address_pads = if self.depth <= 1 {
            0
        } else {
            count_digits((self.depth - 1) as u128, 16)
        };
        let word_pads = (self.width + 3) / 4;
        self.write_head(lines);
        if areas && self.areas.len() > 0 {
            self.write_comments(lines, address_pads);
            lines.append("\n");
        }
        lines.append("CONTENT BEGIN\n");
        self.write_content(lines, address_pads, word_pads);
        lines.append("END;\n");
        assert(lines@ =~= old(lines)@ + self@.text(areas));
    }

    /// Writes the comments on the memory areas to `lines`.
    fn write_comments(&self, lines: &mut String, address_pads: usize)
        ensures
            final(lines)@ == old(lines)@ + comments(self@.areas, address_pads as nat),
    {
        let ghost all = self@.areas;
        let mut at: usize = 0;
        while at < self.areas.len()
            invariant
                at <= self.areas@.len(),
                all == areas_view(self.areas@),
                lines@ == old(lines)@ + comments(all.take(at as int), address_pads as nat),
            decreases self.areas@.len() - at,
        {
            let area = &self.areas[at];
            lines.append("-- ");
            push_padded(lines, area.0 as u128, 16, address_pads);
            lines.append(": ");
            lines.append(area.1.as_str());
            lines.append("\n");
            proof {
                assert(all.take(at + 1).drop_last() =~= all.take(at as int));
                assert(all.take(at + 1).last() == (area.0 as nat, area.1@));
                assert(lines@ =~= old(lines)@ + comments(all.take(at + 1), address_pads as nat));
            }
            at += 1;
        }
        assert(all.take(at as int) =~= all);
    }

    /// Writes width, depth and radixes to `lines`.
    fn write_head(&self, lines: &mut String)
        ensures
            final(lines)@ == old(lines)@ + head(self@.width, self@.depth),
    {
        lines.append("WIDTH=");
        push_digits(lines, self.width as u128, 10);
        lines.append(";\nDEPTH=");
        push_digits(lines, self.depth as u128, 10);
        lines.append(";\n\nADDRESS_RADIX=HEX;\nDATA_RADIX=HEX;\n\n");
        assert(lines@ =~= old(lines)@ + head(self@.width, self@.depth));
    }

    /// Writes the words to `lines`, run by run.
    fn write_content(&self, lines: &mut String, address_pads: usize, word_pads: usize)
        ensures
            final(lines)@ == old(lines)@ + content(
                self@.words,
                address_pads as nat,
                word_pads as nat,
            ),
    {
        proof {
            use_type_invariant(self);
        }
        let ghost runs = self@.words;
        let mut address: usize = 0;
        let mut at: usize = 0;
        while at < self.words.len()
            invariant
                at <= runs.len(),
                runs == self.words@,
                collapsed(runs),
                total(runs) <= usize::MAX,
                address == total(runs.take(at as int)),
                lines@ == old(lines)@ + content(
                    runs.take(at as int),
                    address_pads as nat,
                    word_pads as nat,
                ),
            decreases runs.len() - at,
        {
            let (word, bulk) = self.words[at];
            proof {
                lemma_total_take(runs, at as int);
                lemma_total_take(runs, at + 1);
                assert(runs.take(at + 1).drop_last() =~= runs.take(at as int));
            }
            write_line(lines, address, word, bulk, address_pads, word_pads);
            proof {
                assert(lines@ =~= old(lines)@ + content(
                    runs.take(at + 1),
                    address_pads as nat,
                    word_pads as nat,
                ));
            }
            address += bulk;
            at += 1;
        }
        assert(runs.take(at as int) =~= runs);
    }
}

/// Writes the line of a run of words that begins at `address` to `lines`.
fn write_line(
    lines: &mut String,
    address: usize,
    word: u128,
    bulk: usize,
    address_pads: usize,
    word_pads: usize,
)
    requires
        bulk > 0,
        address + bulk <= usize::MAX,
    ensures
        final(lines)@ == old(lines)@ + line(
            address as nat,
            (word, bulk),
            address_pads as nat,
            word_pads as nat,
        ),
{
    if bulk == 1 {
        lines.append("\t");
        push_padded(lines, address as u128, 16, address_pads);
        lines.append("  :   ");
        push_padded(lines, word, 16, word_pads);
        lines.append(";\n");
    } else {
        lines.append("\t[");
        push_padded(lines, address as u128, 16, address_pads);
        lines.append("..");
        push_padded(lines, (address + bulk - 1) as u128, 16, address_pads);
        lines.append("]  :   ");
        push_padded(lines, word, 16, word_pads);
        lines.append(";\n");
    }
    assert(lines@ =~= old(lines)@ + line(
        address as nat,
        (word, bulk),
        address_pads as nat,
        word_pads as nat,
    ));
}

} // verus!
