//! MIFs by name, in the order in which the names were first used, and what
//! joining a memory area does to them.

use crate::error::Error;
use crate::mif::{Mif, MifView};
use crate::runs::{fits, lemma_accepted};
use crate::width::max_value_of;
use indexmap::IndexMap;
use vstd::prelude::*;

verus! {

/// `indexmap::IndexMap`: a hash map that keeps the order in which its keys
/// were inserted.
#[verifier::external_type_specification]
#[verifier::external_body]
#[verifier::reject_recursive_types(K)]
#[verifier::reject_recursive_types(V)]
#[verifier::reject_recursive_types(S)]
pub struct ExIndexMap<K, V, S>(IndexMap<K, V, S>);

/// The names and MIFs that a map holds, in the order of the map.
pub uninterp spec fn entries(map: IndexMap<String, Mif>) -> Seq<(Seq<char>, MifView)>;

/// `IndexMap::new`, which creates a map without entries.
#[verifier::external_body]
fn map_new() -> (map: IndexMap<String, Mif>)
    ensures
        entries(map) == Seq::<(Seq<char>, MifView)>::empty(),
{
    IndexMap::new()
}

/// `IndexMap::len`, which returns the count of the entries.
#[verifier::external_body]
fn map_len(map: &IndexMap<String, Mif>) -> (len: usize)
    ensures
        len == entries(*map).len(),
{
    map.len()
}

/// `IndexMap::get_index_of`, which returns the index of the entry whose key
/// equals `name`, or `None` where no key equals it.
#[verifier::external_body]
fn map_get_index_of(map: &IndexMap<String, Mif>, name: &String) -> (index: Option<usize>)
    ensures
        match index {
            Some(index) => index < entries(*map).len() && entries(*map)[index as int].0 == name@,
            None => forall|i: int|
                0 <= i < entries(*map).len() ==> (#[trigger] entries(*map)[i]).0 != name@,
        },
{
    map.get_index_of(name)
}

/// `IndexMap::insert_full` for a key that the map does not hold, which
/// inserts the entry last in order and returns its index and `None`.
#[verifier::external_body]
fn map_insert_full(map: &mut IndexMap<String, Mif>, name: String, mif: Mif) -> (inserted: (
    usize,
    Option<Mif>,
))
    requires
        forall|i: int|
            0 <= i < entries(*old(map)).len() ==> (#[trigger] entries(*old(map))[i]).0 != name@,
    ensures
        inserted.0 == entries(*old(map)).len(),
        inserted.1 is None,
        entries(*final(map)) == entries(*old(map)).push((name@, mif@)),
{
    map.insert_full(name, mif)
}

/// `IndexMap::get_index`, which returns the key and the value of the entry
/// at `index`, or `None` where `index` is not less than the count of the
/// entries.
#[verifier::external_body]
fn map_get_index(map: &IndexMap<String, Mif>, index: usize) -> (entry: Option<(&String, &Mif)>)
    ensures
        match entry {
            Some((name, mif)) => index < entries(*map).len() && (name@, mif@) == entries(
                *map,
            )[index as int],
            None => index >= entries(*map).len(),
        },
{
    map.get_index(index)
}

/// `IndexMap::index_mut` by `usize`, which returns a mutable reference to
/// the value of the entry at `index`: the entry holds what the reference is
/// left with, under its key, and the other entries stay. It panics where
/// `index` is not less than the count of the entries.
#[verifier::external_body]
fn map_index_mut(map: &mut IndexMap<String, Mif>, index: usize) -> (mif: &mut Mif)
    requires
        index < entries(*old(map)).len(),
    ensures
        mif@ == entries(*old(map))[index as int].1,
        entries(*final(map)) == entries(*old(map)).update(
            index as int,
            (entries(*old(map))[index as int].0, final(mif)@),
        ),
{
    &mut map[index]
}

/// Where the MIF of `name` stands in `mifs`: the index of the first MIF of
/// that name, or the count of all MIFs where none has it.
pub open spec fn position(mifs: Seq<(Seq<char>, MifView)>, name: Seq<char>) -> int
    decreases mifs.len(),
{
    if mifs.len() == 0 || mifs.first().0 == name {
        0
    } else {
        1 + position(mifs.drop_first(), name)
    }
}

/// What MIFs by name keep to: no two have the same name, and each is
/// well-formed.
pub open spec fn valid(mifs: Seq<(Seq<char>, MifView)>) -> bool {
    &&& forall|i: int, j: int|
        0 <= i < j < mifs.len() ==> (#[trigger] mifs[i]).0 != (#[trigger] mifs[j]).0
    &&& forall|i: int| 0 <= i < mifs.len() ==> (#[trigger] mifs[i]).1.wf()
}

/// The MIFs after joining the memory area `area` of the binary `file` to the
/// MIF `target`, and the error that ended it, if any.
///
/// A target that is not there yet is added behind the others, empty and of
/// the width of the area. The width of the target has to be that of the
/// area, and the depths of both together have to fit the address space.
/// Then the target addresses the area by the name of the binary and takes
/// its words.
pub open spec fn join_one(
    mifs: Seq<(Seq<char>, MifView)>,
    target: String,
    file: Seq<char>,
    area: MifView,
) -> (Seq<(Seq<char>, MifView)>, Option<Error>) {
    let at = position(mifs, target@);
    let mifs = if at == mifs.len() {
        mifs.push((target@, MifView::empty(area.width)))
    } else {
        mifs
    };
    let mif = mifs[at].1;
    if mif.width != area.width {
        (mifs, Some(Error::WidthMismatch(target)))
    } else if mif.depth + area.depth > usize::MAX {
        (mifs, Some(Error::AddressSpaceExhausted(target)))
    } else {
        (mifs.update(at, (target@, mif.area(file).push_all(area.words))), None)
    }
}

/// The MIFs after joining the memory area `area` of the binary `file` to
/// each MIF of `targets` in turn, up to the first error, and that error.
pub open spec fn join_all(
    mifs: Seq<(Seq<char>, MifView)>,
    targets: Seq<String>,
    file: Seq<char>,
    area: MifView,
) -> (Seq<(Seq<char>, MifView)>, Option<Error>)
    decreases targets.len(),
{
    if targets.len() == 0 {
        (mifs, None)
    } else {
        let (next, error) = join_one(mifs, targets.first(), file, area);
        if error is Some {
            (next, error)
        } else {
            join_all(next, targets.drop_first(), file, area)
        }
    }
}

/// The names and the texts of MIFs.
pub open spec fn texts(mifs: Seq<(Seq<char>, MifView)>, areas: bool) -> Seq<
    (Seq<char>, Seq<char>),
> {
    Seq::new(mifs.len(), |i: int| (mifs[i].0, mifs[i].1.text(areas)))
}

/// Names and texts as plain values.
pub open spec fn texts_view(texts: Seq<(String, String)>) -> Seq<(Seq<char>, Seq<char>)> {
    Seq::new(texts.len(), |i: int| (texts[i].0@, texts[i].1@))
}

/// The MIF of a name stands at the one index that has the name, or behind
/// all MIFs where none has it.
pub proof fn lemma_position(mifs: Seq<(Seq<char>, MifView)>, name: Seq<char>, at: int)
    requires
        0 <= at <= mifs.len(),
        forall|i: int| 0 <= i < at ==> (#[trigger] mifs[i]).0 != name,
        at < mifs.len() ==> mifs[at].0 == name,
    ensures
        position(mifs, name) == at,
    decreases at,
{
    if at > 0 {
        let rest = mifs.drop_first();
        assert forall|i: int| 0 <= i < at - 1 implies (#[trigger] rest[i]).0 != name by {
            assert(rest[i] == mifs[i + 1]);
        }
        lemma_position(rest, name, at - 1);
    }
}

/// The MIF of a name stands behind no MIF of that name, and has the name
/// where it stands among the MIFs.
pub proof fn lemma_position_first(mifs: Seq<(Seq<char>, MifView)>, name: Seq<char>)
    ensures
        0 <= position(mifs, name) <= mifs.len(),
        forall|i: int| 0 <= i < position(mifs, name) ==> (#[trigger] mifs[i]).0 != name,
        position(mifs, name) < mifs.len() ==> mifs[position(mifs, name)].0 == name,
    decreases mifs.len(),
{
    if mifs.len() > 0 && mifs.first().0 != name {
        let rest = mifs.drop_first();
        lemma_position_first(rest, name);
        assert forall|i: int| 0 <= i < position(mifs, name) implies (#[trigger] mifs[i]).0
            != name by {
            if i > 0 {
                assert(mifs[i] == rest[i - 1]);
            }
        }
        if position(mifs, name) < mifs.len() {
            assert(mifs[position(mifs, name)] == rest[position(rest, name)]);
        }
    }
}

/// Joining a memory area keeps the MIFs valid and each name at its place.
/// The target is among them afterwards: where it was, or behind the others
/// where it is new.
pub proof fn lemma_join_one(
    mifs: Seq<(Seq<char>, MifView)>,
    target: String,
    file: Seq<char>,
    area: MifView,
)
    requires
        valid(mifs),
        area.wf(),
    ensures
        ({
            let next = join_one(mifs, target, file, area).0;
            &&& valid(next)
            &&& mifs.len() <= next.len() <= mifs.len() + 1
            &&& forall|i: int| 0 <= i < mifs.len() ==> (#[trigger] next[i]).0 == mifs[i].0
            &&& position(next, target@) == position(mifs, target@) < next.len()
        }),
{
    let at = position(mifs, target@);
    lemma_position_first(mifs, target@);
    let with = if at == mifs.len() {
        mifs.push((target@, MifView::empty(area.width)))
    } else {
        mifs
    };
    let mif = with[at].1;
    let next = join_one(mifs, target, file, area).0;
    lemma_position(with, target@, at);
    if mif.width == area.width && mif.depth + area.depth <= usize::MAX {
        mif.area(file).lemma_push_all(area.words);
        lemma_position(next, target@, at);
    }
}

/// Joining a memory area to one MIF after the other keeps the MIFs valid and
/// each name at its place.
pub proof fn lemma_join_all(
    mifs: Seq<(Seq<char>, MifView)>,
    targets: Seq<String>,
    file: Seq<char>,
    area: MifView,
)
    requires
        valid(mifs),
        area.wf(),
    ensures
        ({
            let next = join_all(mifs, targets, file, area).0;
            &&& valid(next)
            &&& mifs.len() <= next.len()
            &&& forall|i: int| 0 <= i < mifs.len() ==> (#[trigger] next[i]).0 == mifs[i].0
        }),
    decreases targets.len(),
{
    if targets.len() > 0 {
        let (next, error) = join_one(mifs, targets.first(), file, area);
        lemma_join_one(mifs, targets.first(), file, area);
        if error is None {
            lemma_join_all(next, targets.drop_first(), file, area);
        }
    }
}

/// MIFs to join memory areas to, by name and in the order in which the names
/// were first used.
pub struct Joins {
    mifs: IndexMap<String, Mif>,
}

impl View for Joins {
    type V = Seq<(Seq<char>, MifView)>;

    closed spec fn view(&self) -> Seq<(Seq<char>, MifView)> {
        entries(self.mifs)
    }
}

impl Joins {
    /// The MIFs are valid at all times.
    #[verifier::type_invariant]
    pub open spec fn wf(&self) -> bool {
        valid(self@)
    }

    /// Creates the MIFs to join to: none yet.
    pub fn new() -> (joins: Joins)
        ensures
            joins@ == Seq::<(Seq<char>, MifView)>::empty(),
    {
        Joins { mifs: map_new() }
    }

    /// Count of the MIFs.
    pub fn len(&self) -> (len: usize)
        ensures
            len == self@.len(),
            valid(self@),
    {
        proof {
            use_type_invariant(self);
        }
        map_len(&self.mifs)
    }

    /// The name and the MIF at `index` in the order of first use.
    pub fn get_index(&self, index: usize) -> (entry: Option<(&String, &Mif)>)
        ensures
            match entry {
                Some((name, mif)) => index < self@.len() && (name@, mif@) == self@[index as int],
                None => index >= self@.len(),
            },
    {
        map_get_index(&self.mifs, index)
    }

    /// The MIF of the name `name`.
    pub fn get(&self, name: &String) -> (mif: Option<&Mif>)
        ensures
            match mif {
                Some(mif) => position(self@, name@) < self@.len() && mif@ == self@[position(
                    self@,
                    name@,
                )].1,
                None => position(self@, name@) == self@.len(),
            },
    {
        proof {
            use_type_invariant(self);
        }
        match map_get_index_of(&self.mifs, name) {
            Some(at) => {
                proof {
                    lemma_position(self@, name@, at as int);
                }
                match map_get_index(&self.mifs, at) {
                    Some((_, mif)) => Some(mif),
                    None => None,
                }
            },
            None => {
                proof {
                    lemma_position(self@, name@, self@.len() as int);
                }
                None
            },
        }
    }

    /// Joins the memory area `area` of the binary `file` to the MIF `target`.
    pub fn join(&mut self, target: &String, file: &String, area: &Mif) -> (joined: Result<
        (),
        Error,
    >)
        ensures
            final(self)@ == join_one(old(self)@, *target, file@, area@).0,
            joined == match join_one(old(self)@, *target, file@, area@).1 {
                Some(error) => Err::<(), Error>(error),
                None => Ok::<(), Error>(()),
            },
    {
        proof {
            use_type_invariant(&*self);
            use_type_invariant(area);
        }
        let mut mifs = map_new();
        core::mem::swap(&mut mifs, &mut self.mifs);
        let at = match map_get_index_of(&mifs, target) {
            Some(at) => {
                proof {
                    lemma_position(entries(mifs), target@, at as int);
                }
                at
            },
            None => {
                proof {
                    lemma_position(entries(mifs), target@, entries(mifs).len() as int);
                }
                match Mif::new(area.width()) {
                    Ok(mif) => map_insert_full(&mut mifs, target.clone(), mif).0,
                    Err(error) => {
                        self.mifs = mifs;
                        return Err(error);
                    },
                }
            },
        };
        let ghost before = entries(mifs);
        assert(valid(before));
        let mif = map_index_mut(&mut mifs, at);
        let joined = if mif.width() != area.width() {
            Err(Error::WidthMismatch(target.clone()))
        } else if mif.depth() > usize::MAX - area.depth() {
            Err(Error::AddressSpaceExhausted(target.clone()))
        } else {
            mif.area(file.clone());
            proof {
                let runs = area@.words;
                let max = max_value_of(area@.width);
                assert forall|i: int| 0 <= i < runs.len() implies fits(#[trigger] runs[i], max) by {}
                lemma_accepted(runs, max, runs.len());
            }
            mif.join(area)
        };
        proof {
            use_type_invariant(&*mif);
        }
        assert(valid(entries(mifs)));
        self.mifs = mifs;
        joined
    }

    /// The names of the MIFs and the MIFs as text, in the order of first use.
    ///
    ///   * `areas`: Whether to comment memory areas, see `Mif::write()`.
    pub fn write(&self, areas: bool) -> (mifs: Vec<(String, String)>)
        ensures
            texts_view(mifs@) == texts(self@, areas),
    {
        let mut mifs: Vec<(String, String)> = Vec::new();
        let len = map_len(&self.mifs);
        let mut at: usize = 0;
        while at < len
            invariant
                at <= len,
                len == self@.len(),
                mifs@.len() == at,
                texts_view(mifs@) == texts(self@.take(at as int), areas),
            decreases len - at,
        {
            let ghost before = mifs@;
            if let Some((name, mif)) = map_get_index(&self.mifs, at) {
                let mut lines = String::new();
                mif.write(&mut lines, areas);
                assert(lines@ =~= mif@.text(areas));
                mifs.push((name.clone(), lines));
            }
            proof {
                let next = self@.take(at + 1);
                assert(mifs@.len() == next.len());
                assert forall|i: int| 0 <= i < next.len() implies texts_view(mifs@)[i] == texts(
                    next,
                    areas,
                )[i] by {
                    if i < at {
                        assert(texts_view(mifs@)[i] == texts_view(before)[i]);
                        assert(texts(next, areas)[i] == texts(self@.take(at as int), areas)[i]);
                    }
                }
                assert(texts_view(mifs@) =~= texts(next, areas));
            }
            at += 1;
        }
        assert(self@.take(at as int) =~= self@);
        mifs
    }
}

} // verus!
