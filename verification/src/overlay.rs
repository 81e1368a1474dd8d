//! Several archives presented as one tree, the first hit winning.

use vstd::prelude::*;
use crate::entry::Node;
use crate::error::PakError;
use crate::pak_vfs::{
    content_bytes, dir_names, metadata_of, names_of, PakVfs, Prime, VfsMetadata,
};

verus! {

/// Several adapters presented as one tree. The adapters are ranked: the one
/// at index 0 ranks highest, and what it holds at a path shadows what the
/// others hold there.
pub struct Overlay<T> {
    pub layers: Vec<PakVfs<T>>,
}

/// Index of the highest-ranked adapter among the first `upto` that holds an
/// entry at `path`.
pub open spec fn first_hit<T>(layers: Seq<PakVfs<T>>, path: Seq<char>, upto: nat) -> Option<int>
    decreases upto,
{
    if upto == 0 || upto > layers.len() {
        None
    } else {
        match first_hit(layers, path, (upto - 1) as nat) {
            Some(k) => Some(k),
            None => if layers[upto - 1].found(path) is Some {
                Some(upto - 1)
            } else {
                None
            },
        }
    }
}

/// `names` holds `name`.
pub open spec fn listed(names: Seq<Seq<char>>, name: Seq<char>) -> bool {
    exists|i: int| 0 <= i < names.len() && #[trigger] names[i] == name
}

/// `seen` followed by those of the first `upto` names of `more` that were
/// not listed before, in their order.
pub open spec fn add_new(seen: Seq<Seq<char>>, more: Seq<Seq<char>>, upto: nat) -> Seq<Seq<char>>
    decreases upto,
{
    if upto == 0 || upto > more.len() {
        seen
    } else {
        let prev = add_new(seen, more, (upto - 1) as nat);
        if listed(prev, more[upto - 1]) {
            prev
        } else {
            prev.push(more[upto - 1])
        }
    }
}

/// The names of the children that the first `upto` adapters hold at `path`,
/// each name once: those of the highest-ranked adapter first in its own
/// order, then what each further adapter adds, in the order of that adapter.
/// An adapter that holds no folder at `path` adds nothing.
pub open spec fn union_names<T>(layers: Seq<PakVfs<T>>, path: Seq<char>, upto: nat) -> Seq<
    Seq<char>,
>
    decreases upto,
{
    if upto == 0 || upto > layers.len() {
        Seq::empty()
    } else {
        let prev = union_names(layers, path, (upto - 1) as nat);
        match dir_names(layers[upto - 1].found(path)) {
            Ok(names) => add_new(prev, names, names.len()),
            Err(_) => prev,
        }
    }
}

/// Whether one of the first `upto` adapters holds a folder at `path`.
pub open spec fn some_folder<T>(layers: Seq<PakVfs<T>>, path: Seq<char>, upto: nat) -> bool
    decreases upto,
{
    if upto == 0 || upto > layers.len() {
        false
    } else {
        some_folder(layers, path, (upto - 1) as nat) || layers[upto - 1].found(path) matches Some(
            Node::Folder { .. },
        )
    }
}

/// What listing `path` gives: the union of the names where some adapter
/// holds a folder there; else the path names only files, or nothing at all.
pub open spec fn overlay_names<T>(layers: Seq<PakVfs<T>>, path: Seq<char>) -> Result<
    Seq<Seq<char>>,
    PakError,
> {
    if some_folder(layers, path, layers.len()) {
        Ok(union_names(layers, path, layers.len()))
    } else if first_hit(layers, path, layers.len()) is Some {
        Err(PakError::Unsupported)
    } else {
        Err(PakError::NotFound)
    }
}

/// Whether `names` holds `name`.
fn is_listed(names: &Vec<String>, name: &String) -> (r: bool)
    ensures
        r == listed(names_of(names@), name@),
{
    let mut i: usize = 0;
    while i < names.len()
        invariant
            i <= names@.len(),
            forall|k: int| 0 <= k < i ==> #[trigger] names_of(names@)[k] != name@,
        decreases names@.len() - i,
    {
        if names[i] == *name {
            assert(names_of(names@)[i as int] == name@);
            return true;
        }
        i += 1;
    }
    false
}

/// Appends to `seen` the names of `more` that it does not hold yet.
fn append_new(seen: &mut Vec<String>, more: Vec<String>)
    ensures
        names_of(final(seen)@) == add_new(
            names_of(old(seen)@),
            names_of(more@),
            more@.len() as nat,
        ),
{
    let mut i: usize = 0;
    while i < more.len()
        invariant
            i <= more@.len(),
            names_of(seen@) == add_new(names_of(old(seen)@), names_of(more@), i as nat),
        decreases more@.len() - i,
    {
        let ghost prev = names_of(seen@);
        assert(names_of(more@)[i as int] == more@[i as int]@);
        if !is_listed(seen, &more[i]) {
            seen.push(more[i].clone());
            assert(names_of(seen@) =~= prev.push(more@[i as int]@));
        }
        i += 1;
    }
}

impl<T> Overlay<T> {
    /// An overlay of the given adapters, highest rank first.
    pub fn new(layers: Vec<PakVfs<T>>) -> (r: Self)
        ensures
            r.layers == layers,
    {
        Overlay { layers }
    }

    /// Index of the highest-ranked adapter that holds an entry at `path`.
    pub fn hit(&self, path: &str) -> (r: Option<usize>)
        ensures
            match r {
                Some(k) => first_hit(self.layers@, path@, self.layers@.len()) == Some(k as int)
                    && k < self.layers@.len() && self.layers@[k as int].found(path@) is Some,
                None => first_hit(self.layers@, path@, self.layers@.len()) is None,
            },
    {
        let mut i: usize = 0;
        while i < self.layers.len()
            invariant
                i <= self.layers@.len(),
                first_hit(self.layers@, path@, i as nat) is None,
            decreases self.layers@.len() - i,
        {
            if self.layers[i].has_entry(path) {
                proof {
                    lemma_hit_stays(self.layers@, path@, (i + 1) as nat, self.layers@.len());
                }
                return Some(i);
            }
            i += 1;
        }
        None
    }

    /// Whether some adapter holds an entry at `path`.
    pub fn has_entry(&self, path: &str) -> (r: bool)
        ensures
            r == first_hit(self.layers@, path@, self.layers@.len()).is_some(),
    {
        self.hit(path).is_some()
    }

    /// What the highest-ranked adapter that holds `path` reports about it.
    pub fn metadata(&self, path: &str) -> (r: Result<VfsMetadata, PakError>)
        ensures
            r == match first_hit(self.layers@, path@, self.layers@.len()) {
                Some(k) => metadata_of(self.layers@[k].found(path@)),
                None => Err(PakError::NotFound),
            },
    {
        match self.hit(path) {
            Some(k) => self.layers[k].metadata(path),
            None => Err(PakError::NotFound),
        }
    }

    /// The names of the children that the adapters hold at `path`, each name
    /// once, ordered by the adapters' rank and then by each adapter's own order.
    pub fn read_dir(&self, path: &str) -> (r: Result<Vec<String>, PakError>)
        ensures
            match overlay_names(self.layers@, path@) {
                Ok(names) => r matches Ok(v) && names_of(v@) == names,
                Err(e) => r matches Err(got) && got == e,
            },
    {
        let mut names: Vec<String> = Vec::new();
        let mut any = false;
        let mut i: usize = 0;
        assert(names_of(names@) =~= Seq::<Seq<char>>::empty());
        while i < self.layers.len()
            invariant
                i <= self.layers@.len(),
                any == some_folder(self.layers@, path@, i as nat),
                names_of(names@) == union_names(self.layers@, path@, i as nat),
            decreases self.layers@.len() - i,
        {
            match self.layers[i].read_dir(path) {
                Ok(more) => {
                    any = true;
                    append_new(&mut names, more);
                },
                Err(_) => {},
            }
            i += 1;
        }
        if any {
            Ok(names)
        } else if self.has_entry(path) {
            Err(PakError::Unsupported)
        } else {
            Err(PakError::NotFound)
        }
    }
}

impl<T: Prime> Overlay<T> {
    /// The content of the file at `path` as the highest-ranked adapter that
    /// holds the path gives it.
    pub fn open_file(&self, path: &str) -> (r: Result<Vec<u8>, PakError>)
        ensures
            content_bytes(r) == match first_hit(self.layers@, path@, self.layers@.len()) {
                Some(k) => self.layers@[k].opened(path@),
                None => Err(PakError::NotFound),
            },
    {
        match self.hit(path) {
            Some(k) => self.layers[k].open_file(path),
            None => Err(PakError::NotFound),
        }
    }
}

/// A hit among the first adapters stays the hit when more adapters are considered.
pub proof fn lemma_hit_stays<T>(layers: Seq<PakVfs<T>>, path: Seq<char>, k: nat, n: nat)
    requires
        k <= n <= layers.len(),
        first_hit(layers, path, k) is Some,
    ensures
        first_hit(layers, path, n) == first_hit(layers, path, k),
    decreases n,
{
    if k < n {
        lemma_hit_stays(layers, path, k, (n - 1) as nat);
    }
}

/// What listing a path gives depends only on what each adapter lists there,
/// taken in the order of their rank: two overlays whose adapters hold the
/// same at the path, rank by rank, list the same names in the same order.
pub proof fn lemma_listing_is_stable<T>(
    first: Seq<PakVfs<T>>,
    second: Seq<PakVfs<T>>,
    path: Seq<char>,
    upto: nat,
)
    requires
        first.len() == second.len(),
        upto <= first.len(),
        forall|k: int| 0 <= k < first.len() ==> (#[trigger] first[k]).found(path) == second[k].found(path),
    ensures
        union_names(first, path, upto) == union_names(second, path, upto),
        some_folder(first, path, upto) == some_folder(second, path, upto),
        first_hit(first, path, upto) == first_hit(second, path, upto),
        upto == first.len() ==> overlay_names(first, path) == overlay_names(second, path),
    decreases upto,
{
    if upto > 0 {
        lemma_listing_is_stable(first, second, path, (upto - 1) as nat);
        assert(first[upto - 1].found(path) == second[upto - 1].found(path));
    }
}

/// Where the highest-ranked adapter holds an entry at a path, it is the
/// hit, whatever the adapters below it hold: the content that the overlay
/// opens there is the one that this adapter opens from its own source.
pub proof fn lemma_top_layer_shadows<T>(layers: Seq<PakVfs<T>>, path: Seq<char>, upto: nat)
    requires
        1 <= upto <= layers.len(),
        layers[0].found(path) is Some,
    ensures
        first_hit(layers, path, upto) == Some(0int),
    decreases upto,
{
    if upto > 1 {
        lemma_top_layer_shadows(layers, path, (upto - 1) as nat);
    } else {
        assert(first_hit(layers, path, 0) is None);
    }
}

/// No name occurs twice in `names`.
pub open spec fn listed_once(names: Seq<Seq<char>>) -> bool {
    forall|i: int, j: int| 0 <= i < j < names.len() ==> #[trigger] names[i] != #[trigger] names[j]
}

/// Adding the names that are new keeps every name listed once.
pub proof fn lemma_add_new_lists_once(seen: Seq<Seq<char>>, more: Seq<Seq<char>>, upto: nat)
    requires
        listed_once(seen),
    ensures
        listed_once(add_new(seen, more, upto)),
    decreases upto,
{
    if upto > 0 && upto <= more.len() {
        lemma_add_new_lists_once(seen, more, (upto - 1) as nat);
        let prev = add_new(seen, more, (upto - 1) as nat);
        if !listed(prev, more[upto - 1]) {
            let next = prev.push(more[upto - 1]);
            assert forall|i: int, j: int| 0 <= i < j < next.len() implies #[trigger] next[i]
                != #[trigger] next[j] by {
                if j == prev.len() {
                    assert(prev[i] != more[upto - 1]);
                } else {
                    assert(prev[i] != prev[j]);
                }
            }
        }
    }
}

/// The overlay lists every name once, however many adapters hold it.
pub proof fn lemma_union_lists_once<T>(layers: Seq<PakVfs<T>>, path: Seq<char>, upto: nat)
    ensures
        listed_once(union_names(layers, path, upto)),
    decreases upto,
{
    if upto > 0 && upto <= layers.len() {
        lemma_union_lists_once(layers, path, (upto - 1) as nat);
        match dir_names(layers[upto - 1].found(path)) {
            Ok(names) => {
                lemma_add_new_lists_once(
                    union_names(layers, path, (upto - 1) as nat),
                    names,
                    names.len(),
                );
            },
            Err(_) => {},
        }
    }
}

/// Names that are all listed already add nothing.
pub proof fn lemma_add_known(seen: Seq<Seq<char>>, more: Seq<Seq<char>>, upto: nat)
    requires
        upto <= more.len(),
        forall|i: int| 0 <= i < upto ==> listed(seen, #[trigger] more[i]),
    ensures
        add_new(seen, more, upto) == seen,
    decreases upto,
{
    if upto > 0 {
        lemma_add_known(seen, more, (upto - 1) as nat);
    }
}

/// Names of which none occurs twice are all added to an empty listing, in
/// their order.
pub proof fn lemma_add_fresh(more: Seq<Seq<char>>, upto: nat)
    requires
        upto <= more.len(),
        listed_once(more),
    ensures
        add_new(Seq::empty(), more, upto) == more.take(upto as int),
    decreases upto,
{
    if upto > 0 {
        lemma_add_fresh(more, (upto - 1) as nat);
        let prev = more.take(upto - 1);
        if listed(prev, more[upto - 1]) {
            let i = choose|i: int| 0 <= i < prev.len() && #[trigger] prev[i] == more[upto - 1];
            assert(more[i] != more[upto - 1]);
        }
        assert(prev.push(more[upto - 1]) =~= more.take(upto as int));
    } else {
        assert(more.take(0) =~= Seq::<Seq<char>>::empty());
    }
}

/// Where every adapter that holds a folder at a path lists the same names
/// there, none of them twice, the overlay lists exactly these names: a file
/// that several archives hold under one name is listed once.
pub proof fn lemma_same_listing_is_kept<T>(
    layers: Seq<PakVfs<T>>,
    path: Seq<char>,
    names: Seq<Seq<char>>,
    upto: nat,
)
    requires
        upto <= layers.len(),
        listed_once(names),
        forall|k: int|
            0 <= k < layers.len() ==> (dir_names((#[trigger] layers[k]).found(path)) matches Ok(
                held,
            ) ==> held == names),
    ensures
        union_names(layers, path, upto) == (if some_folder(layers, path, upto) {
            names
        } else {
            Seq::empty()
        }),
    decreases upto,
{
    if upto > 0 {
        lemma_same_listing_is_kept(layers, path, names, (upto - 1) as nat);
        let prev = union_names(layers, path, (upto - 1) as nat);
        let layer = layers[upto - 1];
        match dir_names(layer.found(path)) {
            Ok(held) => {
                assert(held == names);
                assert(layer.found(path) matches Some(Node::Folder { .. }));
                if some_folder(layers, path, (upto - 1) as nat) {
                    assert forall|i: int| 0 <= i < names.len() implies listed(
                        prev,
                        #[trigger] names[i],
                    ) by {
                        assert(prev[i] == names[i]);
                    }
                    lemma_add_known(prev, names, names.len());
                } else {
                    lemma_add_fresh(names, names.len());
                    assert(names.take(names.len() as int) =~= names);
                }
            },
            Err(_) => {
                assert(!(layer.found(path) matches Some(Node::Folder { .. })));
            },
        }
    }
}

} // verus!
