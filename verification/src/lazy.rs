//! The descriptor lookup: from a symbol or a file name to the encoded bytes
//! of the file and of all that it depends on, what is depended on first.
//!
//! The lookup is built once from the schema files with their encodings and
//! never changes after that. The encodings are carried as they are given.

use vstd::prelude::*;
use vstd::string::*;
use crate::closure::{
    closure_order, graph_of, graph_wf, is_closure_order, law_search_order_is_closure,
    search_order,
};
use crate::descriptor::{file_defines, file_depends_on, FileDescriptorProto};
use crate::index_laws::{
    first_of_its_name, law_every_symbol_indexed, lemma_build_contents, lemma_processed_names,
};
use crate::info_handler::{blobs_of, DescriptorMap};
use crate::lexical::{
    lemma_str_before_total, lemma_str_before_transitive, rank_str, str_before, strictly_sorted, Rank,
};
use crate::str_map::{names_of, StrMap};
use crate::symbol_map::{
    build_spec, closed_under_dependencies, is_first_missing, MissingDependency, SymbolMap,
};

verus! {

/// One schema file with its encoding.
#[derive(Debug, Default)]
pub struct EncodedFile {
    /// What the file declares.
    pub descriptor: FileDescriptorProto,
    /// The file as encoded bytes.
    pub bytes: Vec<u8>,
}

/// The descriptors of `files`.
pub open spec fn descriptors_of(files: Seq<EncodedFile>) -> Seq<FileDescriptorProto> {
    Seq::new(files.len(), |i: int| files[i].descriptor)
}

/// The places, among the first `n` of `files`, of those that are the first of
/// their name, in rising order.
pub open spec fn first_files(files: Seq<FileDescriptorProto>, n: nat) -> Seq<int>
    decreases n,
{
    if n == 0 || n > files.len() {
        Seq::empty()
    } else if first_of_its_name(files, n - 1) {
        first_files(files, (n - 1) as nat).push(n - 1)
    } else {
        first_files(files, (n - 1) as nat)
    }
}

/// What a descriptor lookup holds.
pub struct Catalog {
    /// The names of the files, each once.
    pub names: Seq<Seq<char>>,
    /// The encoding of each file.
    pub blobs: Seq<Seq<u8>>,
    /// For each file the places of the files that it depends on.
    pub deps: Seq<Seq<usize>>,
    /// From each symbol to the place of the file that defines it.
    pub owner: Map<Seq<char>, usize>,
    /// The names of the services, in rising order.
    pub services: Seq<Seq<char>>,
}

/// `names` holds `name`.
pub open spec fn is_named(names: Seq<Seq<char>>, name: Seq<char>) -> bool {
    exists|i: int| 0 <= i < names.len() && #[trigger] names[i] == name
}

/// `out` is the encodings of the files at the places `order`.
pub open spec fn blobs_at(blobs: Seq<Seq<u8>>, order: Seq<usize>, out: Seq<Seq<u8>>) -> bool {
    &&& out.len() == order.len()
    &&& forall|p: int| 0 <= p < order.len() ==> #[trigger] out[p] == blobs[order[p] as int]
}

/// `out` is the encodings of the dependency closure of the file at `root`,
/// in the order in which the search finds the files: that file's encoding
/// last, and before it, each once, the encodings of all that it depends on,
/// directly or not, what is depended on first.
pub open spec fn closure_blobs(c: Catalog, root: usize, out: Seq<Seq<u8>>) -> bool {
    blobs_at(c.blobs, search_order(c.deps, root), out)
}

/// One file has one dependency closure: two lists of encodings that are both
/// the closure of the file at `root` are the same list.
pub proof fn law_one_closure(c: Catalog, root: usize, first: Seq<Seq<u8>>, second: Seq<Seq<u8>>)
    requires
        closure_blobs(c, root, first),
        closure_blobs(c, root, second),
    ensures
        first == second,
{
    assert(first =~= second);
}

/// `out` answers a query for the file named `filename`: nothing where no
/// file has that name, otherwise the dependency closure of that file.
pub open spec fn catalog_answers_filename(
    c: Catalog,
    filename: Seq<char>,
    out: Seq<Seq<u8>>,
) -> bool {
    if is_named(c.names, filename) {
        exists|root: usize|
            root < c.names.len() && #[trigger] c.names[root as int] == filename && closure_blobs(
                c,
                root,
                out,
            )
    } else {
        out.len() == 0
    }
}

/// `out` answers a query for `symbol`: nothing where no file defines it,
/// otherwise the dependency closure of the file that does.
pub open spec fn catalog_answers_symbol(c: Catalog, symbol: Seq<char>, out: Seq<Seq<u8>>) -> bool {
    if c.owner.contains_key(symbol) {
        closure_blobs(c, c.owner[symbol], out)
    } else {
        out.len() == 0
    }
}

/// The parts of the catalog fit together: every file has a name of its own,
/// an encoding and a list of files, and the lists and the owners name files
/// of the catalog.
pub open spec fn catalog_wf(c: Catalog) -> bool {
    &&& c.blobs.len() == c.names.len()
    &&& c.deps.len() == c.names.len()
    &&& graph_wf(c.deps)
    &&& forall|i: int, j: int|
        0 <= i < j < c.names.len() ==> #[trigger] c.names[i] != #[trigger] c.names[j]
    &&& forall|s: Seq<char>| #[trigger] c.owner.contains_key(s) ==> c.owner[s] < c.names.len()
}

/// A query for a symbol is answered as a query for the file that defines it.
pub proof fn law_symbol_answers_as_its_file(c: Catalog, symbol: Seq<char>, out: Seq<Seq<u8>>)
    requires
        catalog_wf(c),
        c.owner.contains_key(symbol),
    ensures
        catalog_answers_symbol(c, symbol, out) <==> catalog_answers_filename(
            c,
            c.names[c.owner[symbol] as int],
            out,
        ),
{
    let root = c.owner[symbol];
    let filename = c.names[root as int];
    assert(is_named(c.names, filename));
    if catalog_answers_filename(c, filename, out) {
        let other = choose|other: usize|
            other < c.names.len() && #[trigger] c.names[other as int] == filename && closure_blobs(
                c,
                other,
                out,
            );
        assert(other == root);
    }
}

/// The files whose encodings answer a query for the file at `root` are a
/// dependency closure of that file: the files that it reaches, each once, the
/// file itself last, and whatever a file depends on before the file, unless
/// the two lie on a cycle.
pub proof fn law_answer_is_a_closure(c: Catalog, root: usize)
    requires
        catalog_wf(c),
        root < c.names.len(),
    ensures
        is_closure_order(c.deps, root, search_order(c.deps, root)),
{
    law_search_order_is_closure(c.deps, root);
}

/// What answers a query for a file that is held ends with the encoding of
/// that file, which stands in it once.
pub proof fn law_closure_ends_with_the_file(c: Catalog, root: usize, out: Seq<Seq<u8>>)
    requires
        catalog_wf(c),
        root < c.names.len(),
        closure_blobs(c, root, out),
    ensures
        out.len() >= 1,
        out.last() == c.blobs[root as int],
{
    law_search_order_is_closure(c.deps, root);
    let order = search_order(c.deps, root);
    assert(out[out.len() - 1] == c.blobs[order[order.len() - 1] as int]);
}

/// A query has one answer: two lists of encodings that both answer a query
/// for one file name, or for one symbol, are the same list. So the same
/// query is answered the same way every time, and a query for a symbol as a
/// query for the file that defines it.
pub proof fn law_one_answer(
    c: Catalog,
    key: Seq<char>,
    first: Seq<Seq<u8>>,
    second: Seq<Seq<u8>>,
)
    requires
        catalog_wf(c),
    ensures
        catalog_answers_filename(c, key, first) && catalog_answers_filename(c, key, second)
            ==> first == second,
        catalog_answers_symbol(c, key, first) && catalog_answers_symbol(c, key, second) ==> first
            == second,
{
    if catalog_answers_filename(c, key, first) && catalog_answers_filename(c, key, second) {
        if is_named(c.names, key) {
            let a = choose|root: usize|
                root < c.names.len() && #[trigger] c.names[root as int] == key && closure_blobs(
                    c,
                    root,
                    first,
                );
            let b = choose|root: usize|
                root < c.names.len() && #[trigger] c.names[root as int] == key && closure_blobs(
                    c,
                    root,
                    second,
                );
            assert(a == b);
            law_one_closure(c, a, first, second);
        } else {
            assert(first =~= second);
        }
    }
    if catalog_answers_symbol(c, key, first) && catalog_answers_symbol(c, key, second) {
        if c.owner.contains_key(key) {
            law_one_closure(c, c.owner[key], first, second);
        } else {
            assert(first =~= second);
        }
    }
}

/// `places` leads from each of `names` to its place, and holds nothing else.
pub open spec fn places_match(places: Map<Seq<char>, usize>, names: Seq<Seq<char>>) -> bool {
    &&& forall|p: int|
        0 <= p < names.len() ==> places.contains_key(#[trigger] names[p]) && places[names[p]] == p
    &&& forall|k: Seq<char>| #[trigger]
        places.contains_key(k) ==> places[k] < names.len() && names[places[k] as int] == k
}

/// The catalog is that of `files`: it holds the files that are the first of
/// their name, in their order, each with its encoding and with the places of
/// the files that its dependency list names; it leads from every symbol of
/// the index of `files` to the file that the index names; and it lists the
/// services of that index.
pub open spec fn catalog_of(c: Catalog, files: Seq<EncodedFile>) -> bool {
    let descs = descriptors_of(files);
    let state = build_spec(descs, descs.len());
    let kept = first_files(descs, descs.len());
    &&& c.names.len() == kept.len()
    &&& c.blobs.len() == kept.len()
    &&& c.deps.len() == kept.len()
    &&& forall|p: int|
        0 <= p < kept.len() ==> {
            &&& 0 <= #[trigger] kept[p] < files.len()
            &&& c.names[p] == descs[kept[p]].name_spec()
            &&& c.blobs[p] == files[kept[p]].bytes@
            &&& c.deps[p].len() == descs[kept[p]].dependency@.len()
        }
    &&& forall|p: int, k: int|
        0 <= p < kept.len() && 0 <= k < c.deps[p].len() ==> (#[trigger] c.deps[p][k])
            < c.names.len() && c.names[c.deps[p][k] as int] == descs[kept[p]].dependency@[k]@
    &&& c.owner.dom() == state.index.dom()
    &&& forall|s: Seq<char>| #[trigger]
        c.owner.contains_key(s) ==> c.owner[s] < c.names.len() && c.names[c.owner[s] as int]
            == state.index[s]
    &&& strictly_sorted(c.services)
    &&& c.services.to_set() == state.services
}

/// Every symbol that a file of `files` defines is answered by the catalog of
/// `files` with the encoding of a file at least: no symbol of the set is
/// unknown to the lookup. (Of several files of one name only the first is
/// read.)
pub proof fn law_defined_symbols_resolve(
    c: Catalog,
    files: Seq<EncodedFile>,
    i: int,
    symbol: Seq<char>,
    out: Seq<Seq<u8>>,
)
    requires
        catalog_wf(c),
        catalog_of(c, files),
        0 <= i < files.len(),
        first_of_its_name(descriptors_of(files), i),
        file_defines(files[i].descriptor, symbol),
        catalog_answers_symbol(c, symbol, out),
    ensures
        c.owner.contains_key(symbol),
        out.len() >= 1,
        out.last() == c.blobs[c.owner[symbol] as int],
{
    let descs = descriptors_of(files);
    assert(descs[i] == files[i].descriptor);
    law_every_symbol_indexed(descs, i, symbol);
    assert(c.owner.dom().contains(symbol));
    law_closure_ends_with_the_file(c, c.owner[symbol], out);
}

/// Copies a byte string.
fn copy_bytes(bytes: &Vec<u8>) -> (copy: Vec<u8>)
    ensures
        copy@ == bytes@,
{
    let mut copy: Vec<u8> = Vec::new();
    let mut i: usize = 0;
    while i < bytes.len()
        invariant
            i <= bytes@.len(),
            copy@ == bytes@.take(i as int),
        decreases bytes@.len() - i,
    {
        copy.push(bytes[i]);
        assert(copy@ =~= bytes@.take(i + 1));
        i = i + 1;
    }
    assert(bytes@.take(bytes@.len() as int) =~= bytes@);
    copy
}

/// The descriptor lookup.
pub struct LazyDescriptorMap {
    names: Vec<String>,
    blobs: Vec<Vec<u8>>,
    deps: Vec<Vec<usize>>,
    places: StrMap<usize>,
    owners: StrMap<usize>,
    services: Vec<String>,
}

impl View for LazyDescriptorMap {
    type V = Catalog;

    closed spec fn view(&self) -> Catalog {
        Catalog {
            names: names_of(self.names@),
            blobs: blobs_of(self.blobs@),
            deps: graph_of(self.deps@),
            owner: self.owners@,
            services: names_of(self.services@),
        }
    }
}

impl LazyDescriptorMap {
    /// The tables inside fit together.
    pub closed spec fn inv(&self) -> bool {
        &&& self.places.wf()
        &&& self.owners.wf()
        &&& self.blobs@.len() == self.names@.len()
        &&& self.deps@.len() == self.names@.len()
        &&& graph_wf(graph_of(self.deps@))
        &&& places_match(self.places@, names_of(self.names@))
        &&& forall|s: Seq<char>| #[trigger]
            self.owners@.contains_key(s) ==> self.owners@[s] < self.names@.len()
    }

    /// A lookup in order holds a catalog whose parts fit together.
    pub proof fn lemma_inv(&self)
        requires
            self.inv(),
        ensures
            catalog_wf(self@),
    {
        let c = self@;
        assert forall|i: int, j: int| 0 <= i < j < c.names.len() implies #[trigger] c.names[i]
            != #[trigger] c.names[j] by {
            assert(self.places@[c.names[i]] == i);
            assert(self.places@[c.names[j]] == j);
        }
    }

    /// The encodings of the dependency closure of the file at `root`.
    fn closure_of(&self, root: usize) -> (out: Vec<Vec<u8>>)
        requires
            self.inv(),
            root < self.names@.len(),
        ensures
            closure_blobs(self@, root, blobs_of(out@)),
    {
        let order = closure_order(&self.deps, root);
        let mut out: Vec<Vec<u8>> = Vec::new();
        let mut i: usize = 0;
        while i < order.len()
            invariant
                i <= order@.len(),
                self.blobs@.len() == self.names@.len(),
                self.deps@.len() == self.names@.len(),
                forall|p: int| 0 <= p < order@.len() ==> (#[trigger] order@[p]) < self.deps@.len(),
                out@.len() == i,
                forall|p: int| 0 <= p < i ==> (#[trigger] out@[p])@ == self.blobs@[order@[p] as int]@,
            decreases order@.len() - i,
        {
            assert(order@[i as int] < self.deps@.len());
            out.push(copy_bytes(&self.blobs[order[i]]));
            i = i + 1;
        }
        proof {
            assert(order@ == search_order(self@.deps, root));
            assert(blobs_at(self@.blobs, order@, blobs_of(out@)));
        }
        out
    }

    /// The names of the services, in rising order.
    pub fn services(&self) -> (names: Vec<String>)
        requires
            self.inv(),
        ensures
            names_of(names@) == self@.services,
    {
        let mut names: Vec<String> = Vec::new();
        let mut i: usize = 0;
        while i < self.services.len()
            invariant
                i <= self.services@.len(),
                names@.len() == i,
                forall|j: int| 0 <= j < i ==> (#[trigger] names@[j])@ == self.services@[j]@,
            decreases self.services@.len() - i,
        {
            names.push(self.services[i].clone());
            i = i + 1;
        }
        assert(names_of(names@) =~= self@.services);
        names
    }

    /// The number of files held.
    pub fn len(&self) -> (n: usize)
        requires
            self.inv(),
        ensures
            n == self@.names.len(),
    {
        self.names.len()
    }
}

impl DescriptorMap for LazyDescriptorMap {
    open spec fn wf(&self) -> bool {
        self.inv()
    }

    open spec fn answers_symbol(&self, symbol: Seq<char>, files: Seq<Seq<u8>>) -> bool {
        catalog_answers_symbol(self@, symbol, files)
    }

    open spec fn answers_filename(&self, filename: Seq<char>, files: Seq<Seq<u8>>) -> bool {
        catalog_answers_filename(self@, filename, files)
    }

    /// The encoded bytes of the file that defines `symbol` and of every file
    /// that it depends on, directly or not, each once and what is depended
    /// on first; nothing where no file defines the symbol.
    fn by_symbol(&self, symbol: &str) -> (files: Vec<Vec<u8>>) {
        match self.owners.get(symbol) {
            Some(root) => {
                let root: usize = *root;
                self.closure_of(root)
            },
            None => Vec::new(),
        }
    }

    /// The encoded bytes of the file named `filename` and of every file that
    /// it depends on, directly or not, each once and what is depended on
    /// first; nothing where no file has that name.
    fn by_filename(&self, filename: &str) -> (files: Vec<Vec<u8>>) {
        match self.places.get(filename) {
            Some(root) => {
                let root: usize = *root;
                assert(self@.names[root as int] == filename@);
                self.closure_of(root)
            },
            None => {
                proof {
                    if is_named(self@.names, filename@) {
                        let i = choose|i: int|
                            0 <= i < self@.names.len() && #[trigger] self@.names[i] == filename@;
                        assert(self.places@.contains_key(self@.names[i]));
                    }
                }
                Vec::new()
            },
        }
    }
}

/// The names and encodings of the files that are the first of their name,
/// with the place of each in `files`, and the map from each name to its place
/// among them.
fn place_files(files: &Vec<EncodedFile>) -> (r: (
    Vec<String>,
    Vec<Vec<u8>>,
    Vec<usize>,
    StrMap<usize>,
))
    ensures
        ({
            let (names, blobs, sources, places) = r;
            let descs = descriptors_of(files@);
            let kept = first_files(descs, descs.len());
            &&& places.wf()
            &&& names@.len() == kept.len()
            &&& blobs@.len() == kept.len()
            &&& sources@.len() == kept.len()
            &&& forall|p: int|
                0 <= p < kept.len() ==> {
                    &&& (#[trigger] sources@[p]) as int == kept[p]
                    &&& sources@[p] < files@.len()
                    &&& first_of_its_name(descs, kept[p])
                    &&& names@[p]@ == descs[kept[p]].name_spec()
                    &&& blobs@[p]@ == files@[kept[p]].bytes@
                }
            &&& places_match(places@, names_of(names@))
            &&& forall|name: Seq<char>|
                places@.contains_key(name) <==> exists|j: int|
                    0 <= j < descs.len() && (#[trigger] descs[j]).name_spec() == name
        }),
{
    let ghost descs = descriptors_of(files@);
    let mut names: Vec<String> = Vec::new();
    let mut blobs: Vec<Vec<u8>> = Vec::new();
    let mut sources: Vec<usize> = Vec::new();
    let mut places: StrMap<usize> = StrMap::new();
    let mut i: usize = 0;
    while i < files.len()
        invariant
            i <= files@.len(),
            descs == descriptors_of(files@),
            places.wf(),
            names@.len() == first_files(descs, i as nat).len(),
            blobs@.len() == names@.len(),
            sources@.len() == names@.len(),
            forall|p: int|
                0 <= p < names@.len() ==> {
                    &&& (#[trigger] sources@[p]) as int == first_files(descs, i as nat)[p]
                    &&& sources@[p] < i
                    &&& first_of_its_name(descs, sources@[p] as int)
                    &&& names@[p]@ == descs[sources@[p] as int].name_spec()
                    &&& blobs@[p]@ == files@[sources@[p] as int].bytes@
                },
            places_match(places@, names_of(names@)),
            forall|name: Seq<char>|
                places@.contains_key(name) <==> exists|j: int|
                    0 <= j < i && (#[trigger] descs[j]).name_spec() == name,
        decreases files@.len() - i,
    {
        let name = files[i].descriptor.name();
        let ghost old_names = names@;
        let ghost old_places = places@;
        let ghost old_kept = first_files(descs, i as nat);
        assert(descs[i as int] == files@[i as int].descriptor);
        let seen = places.contains_key(name);
        proof {
            if seen {
                let j = choose|j: int| 0 <= j < i && (#[trigger] descs[j]).name_spec() == name@;
                assert(!first_of_its_name(descs, i as int));
            } else {
                assert forall|j: int| 0 <= j < i implies (#[trigger] descs[j]).name_spec()
                    != descs[i as int].name_spec() by {
                    if descs[j].name_spec() == name@ {
                        assert(places@.contains_key(name@));
                    }
                }
                assert(first_of_its_name(descs, i as int));
            }
        }
        if !seen {
            let at: usize = names.len();
            places.insert(String::from_str(name), at);
            names.push(String::from_str(name));
            blobs.push(copy_bytes(&files[i].bytes));
            sources.push(i);
            proof {
                let kept = first_files(descs, (i + 1) as nat);
                assert(kept == old_kept.push(i as int));
                assert forall|p: int| 0 <= p < names@.len() implies {
                    &&& (#[trigger] sources@[p]) as int == kept[p]
                    &&& sources@[p] < i + 1
                    &&& first_of_its_name(descs, sources@[p] as int)
                    &&& names@[p]@ == descs[sources@[p] as int].name_spec()
                    &&& blobs@[p]@ == files@[sources@[p] as int].bytes@
                } by {
                    if p < at {
                        assert(names@[p] == old_names[p]);
                    }
                }
                assert forall|p: int| 0 <= p < names_of(names@).len() implies places@.contains_key(
                    #[trigger] names_of(names@)[p],
                ) && places@[names_of(names@)[p]] == p by {
                    if p < at {
                        assert(names_of(names@)[p] == names_of(old_names)[p]);
                        assert(old_places.contains_key(names_of(old_names)[p]));
                    }
                }
                assert forall|k: Seq<char>| #[trigger] places@.contains_key(k) implies places@[k]
                    < names_of(names@).len() && names_of(names@)[places@[k] as int] == k by {
                    if k != name@ {
                        assert(old_places.contains_key(k));
                        assert(names_of(names@)[old_places[k] as int] == names_of(
                            old_names,
                        )[old_places[k] as int]);
                    }
                }
            }
        } else {
            proof {
                assert(first_files(descs, (i + 1) as nat) == old_kept);
            }
        }
        proof {
            assert forall|name: Seq<char>|
                places@.contains_key(name) <==> exists|j: int|
                    0 <= j < i + 1 && (#[trigger] descs[j]).name_spec() == name by {
                if places@.contains_key(name) {
                    if old_places.contains_key(name) {
                        let j = choose|j: int|
                            0 <= j < i && (#[trigger] descs[j]).name_spec() == name;
                        assert(0 <= j < i + 1 && descs[j].name_spec() == name);
                    } else {
                        assert(descs[i as int].name_spec() == name);
                    }
                }
                if exists|j: int| 0 <= j < i + 1 && (#[trigger] descs[j]).name_spec() == name {
                    let j = choose|j: int|
                        0 <= j < i + 1 && (#[trigger] descs[j]).name_spec() == name;
                    if j < i {
                        assert(old_places.contains_key(name));
                    }
                }
            }
        }
        i = i + 1;
    }
    (names, blobs, sources, places)
}

/// For each file at `sources`, the places of the files that its dependency
/// list names.
fn link_files(files: &Vec<EncodedFile>, sources: &Vec<usize>, places: &StrMap<usize>) -> (deps:
    Vec<Vec<usize>>)
    requires
        places.wf(),
        forall|p: int| 0 <= p < sources@.len() ==> (#[trigger] sources@[p]) < files@.len(),
        forall|p: int, k: int|
            0 <= p < sources@.len() && 0 <= k < files@[sources@[p] as int].descriptor.dependency@.len()
                ==> places@.contains_key(
                (#[trigger] files@[sources@[p] as int].descriptor.dependency@[k])@,
            ),
    ensures
        deps@.len() == sources@.len(),
        forall|p: int|
            0 <= p < sources@.len() ==> (#[trigger] deps@[p])@.len()
                == files@[sources@[p] as int].descriptor.dependency@.len(),
        forall|p: int, k: int|
            0 <= p < sources@.len() && 0 <= k < deps@[p]@.len() ==> places@.contains_key(
                files@[sources@[p] as int].descriptor.dependency@[k]@,
            ) && (#[trigger] deps@[p]@[k])
                == places@[files@[sources@[p] as int].descriptor.dependency@[k]@],
{
    let mut deps: Vec<Vec<usize>> = Vec::new();
    let mut p: usize = 0;
    while p < sources.len()
        invariant
            p <= sources@.len(),
            places.wf(),
            deps@.len() == p,
            forall|q: int| 0 <= q < sources@.len() ==> (#[trigger] sources@[q]) < files@.len(),
            forall|q: int, k: int|
                0 <= q < sources@.len() && 0 <= k
                    < files@[sources@[q] as int].descriptor.dependency@.len()
                    ==> places@.contains_key(
                    (#[trigger] files@[sources@[q] as int].descriptor.dependency@[k])@,
                ),
            forall|q: int|
                0 <= q < p ==> (#[trigger] deps@[q])@.len()
                    == files@[sources@[q] as int].descriptor.dependency@.len(),
            forall|q: int, k: int|
                0 <= q < p && 0 <= k < deps@[q]@.len() ==> places@.contains_key(
                    files@[sources@[q] as int].descriptor.dependency@[k]@,
                ) && (#[trigger] deps@[q]@[k])
                    == places@[files@[sources@[q] as int].descriptor.dependency@[k]@],
        decreases sources@.len() - p,
    {
        let src: usize = sources[p];
        let listed = &files[src].descriptor.dependency;
        let mut list: Vec<usize> = Vec::new();
        let mut k: usize = 0;
        while k < listed.len()
            invariant
                k <= listed@.len(),
                places.wf(),
                list@.len() == k,
                forall|j: int| 0 <= j < listed@.len() ==> places@.contains_key(
                    (#[trigger] listed@[j])@,
                ),
                forall|j: int|
                    0 <= j < k ==> (#[trigger] list@[j]) == places@[listed@[j]@],
            decreases listed@.len() - k,
        {
            let found = places.get(listed[k].as_str());
            assert(places@.contains_key(listed@[k as int]@));
            if let Some(at) = found {
                list.push(*at);
            }
            k = k + 1;
        }
        let ghost before = deps@;
        deps.push(list);
        proof {
            assert forall|q: int| 0 <= q < p + 1 implies (#[trigger] deps@[q])@.len()
                == files@[sources@[q] as int].descriptor.dependency@.len() by {
                if q < p {
                    assert(deps@[q] == before[q]);
                }
            }
            assert forall|q: int, k: int|
                0 <= q < p + 1 && 0 <= k < deps@[q]@.len() implies places@.contains_key(
                files@[sources@[q] as int].descriptor.dependency@[k]@,
            ) && (#[trigger] deps@[q]@[k])
                == places@[files@[sources@[q] as int].descriptor.dependency@[k]@] by {
                if q < p {
                    assert(deps@[q] == before[q]);
                    assert(before[q]@[k] == places@[files@[sources@[q] as int].descriptor.dependency@[k]@]);
                } else {
                    assert(list@[k] == places@[listed@[k]@]);
                }
            }
        }
        p = p + 1;
    }
    deps
}

/// From each symbol of `index` to the place of the file that it names.
fn assign_owners(index: &StrMap<String>, places: &StrMap<usize>) -> (owners: StrMap<usize>)
    requires
        index.wf(),
        places.wf(),
        forall|s: Seq<char>| #[trigger]
            index@.contains_key(s) ==> places@.contains_key(index@[s]@),
    ensures
        owners.wf(),
        owners@.dom() == index@.dom(),
        forall|s: Seq<char>| #[trigger]
            owners@.contains_key(s) ==> owners@[s] == places@[index@[s]@],
{
    let mut owners: StrMap<usize> = StrMap::new();
    let n = index.len();
    proof {
        index.lemma_view();
    }
    let mut t: usize = 0;
    while t < n
        invariant
            t <= n,
            n == index.keys().len(),
            index.wf(),
            places.wf(),
            owners.wf(),
            index@.dom() == index.keys().to_set(),
            forall|s: Seq<char>| #[trigger]
                index@.contains_key(s) ==> places@.contains_key(index@[s]@),
            forall|s: Seq<char>|
                owners@.contains_key(s) <==> exists|j: int|
                    0 <= j < t && #[trigger] index.keys()[j] == s,
            forall|s: Seq<char>| #[trigger]
                owners@.contains_key(s) ==> owners@[s] == places@[index@[s]@],
        decreases n - t,
    {
        let symbol = index.key_at(t);
        let filename = index.value_at(t);
        let ghost before = owners@;
        assert(index@.contains_key(symbol@));
        let found = places.get(filename.as_str());
        if let Some(at) = found {
            owners.insert(String::from_str(symbol), *at);
        }
        proof {
            assert(owners@ == before.insert(symbol@, places@[index@[symbol@]@]));
            assert forall|s: Seq<char>|
                owners@.contains_key(s) <==> exists|j: int|
                    0 <= j < t + 1 && #[trigger] index.keys()[j] == s by {
                if owners@.contains_key(s) {
                    if before.contains_key(s) {
                        let j = choose|j: int| 0 <= j < t && #[trigger] index.keys()[j] == s;
                        assert(0 <= j < t + 1 && index.keys()[j] == s);
                    } else {
                        assert(index.keys()[t as int] == s);
                    }
                }
                if exists|j: int| 0 <= j < t + 1 && #[trigger] index.keys()[j] == s {
                    let j = choose|j: int| 0 <= j < t + 1 && #[trigger] index.keys()[j] == s;
                    if j < t {
                        assert(before.contains_key(s));
                    }
                }
            }
        }
        t = t + 1;
    }
    proof {
        assert forall|s: Seq<char>| owners@.dom().contains(s) <==> index@.dom().contains(s) by {
            if owners@.contains_key(s) {
                let j = choose|j: int| 0 <= j < n && #[trigger] index.keys()[j] == s;
                assert(index.keys().to_set().contains(index.keys()[j]));
            }
            if index@.dom().contains(s) {
                assert(index.keys().to_set().contains(s));
                let j = choose|j: int| 0 <= j < index.keys().len() && index.keys()[j] == s;
                assert(index.keys()[j] == s);
            }
        }
        assert(owners@.dom() =~= index@.dom());
    }
    owners
}

impl LazyDescriptorMap {
    /// Builds the lookup of `files`: indexes their symbols, checks that every
    /// file named in a dependency list is among them, and keeps of each file
    /// its encoding and the files that it depends on. Fails, naming the first
    /// missing file in the order of strings, where a dependency list names a
    /// file that is not among them.
    pub fn from_descriptors(files: &Vec<EncodedFile>) -> (r: Result<
        LazyDescriptorMap,
        MissingDependency,
    >)
        ensures
            r is Ok <==> closed_under_dependencies(
                build_spec(descriptors_of(files@), files@.len()),
            ),
            match r {
                Ok(m) => m.inv() && catalog_wf(m@) && catalog_of(m@, files@)
                    && closed_under_dependencies(
                    build_spec(descriptors_of(files@), files@.len()),
                ),
                Err(e) => is_first_missing(
                    build_spec(descriptors_of(files@), files@.len()),
                    e.filename@,
                ),
            },
    {
        let ghost descs = descriptors_of(files@);
        let mut symbols = SymbolMap::new();
        let mut i: usize = 0;
        while i < files.len()
            invariant
                symbols.wf(),
                i <= files@.len(),
                descs == descriptors_of(files@),
                symbols.state() == build_spec(descs, i as nat),
            decreases files@.len() - i,
        {
            assert(descs[i as int] == files@[i as int].descriptor);
            symbols.insert(files[i].descriptor.name(), &files[i].descriptor);
            i = i + 1;
        }
        let ghost state = build_spec(descs, descs.len());
        match symbols.validate() {
            Err(e) => {
                return Err(e);
            },
            Ok(_) => {},
        }
        let (names, blobs, sources, places) = place_files(files);
        let ghost kept = first_files(descs, descs.len());
        proof {
            lemma_build_contents(descs, descs.len());
            lemma_processed_names(descs, descs.len());
            assert forall|p: int, k: int|
                0 <= p < sources@.len() && 0 <= k
                    < files@[sources@[p] as int].descriptor.dependency@.len() implies places@.contains_key(
                (#[trigger] files@[sources@[p] as int].descriptor.dependency@[k])@,
            ) by {
                let src = sources@[p] as int;
                let d = files@[src].descriptor.dependency@[k]@;
                assert(descs[src] == files@[src].descriptor);
                assert(src == kept[p]);
                assert(file_depends_on(descs[src], d));
                assert(state.dependencies.contains(d));
                assert(state.processed.contains(d));
            }
        }
        let deps = link_files(files, &sources, &places);
        let index = symbols.as_inner();
        proof {
            assert forall|s: Seq<char>| #[trigger] index@.contains_key(s) implies places@.contains_key(
                index@[s]@,
            ) by {
                assert(state.index.contains_key(s));
                assert(state.index[s] == index@[s]@);
                let i = choose|i: int|
                    0 <= i < descs.len() && first_of_its_name(descs, i) && file_defines(
                        #[trigger] descs[i],
                        s,
                    ) && state.index[s] == descs[i].name_spec();
                assert(descs[i].name_spec() == index@[s]@);
            }
        }
        let owners = assign_owners(index, &places);
        let services = symbols.services();
        let map = LazyDescriptorMap { names, blobs, deps, places, owners, services };
        proof {
            let c = map@;
            assert(c.owner.dom() =~= state.index.dom());
            assert forall|p: int, k: int|
                0 <= p < kept.len() && 0 <= k < c.deps[p].len() implies (#[trigger] c.deps[p][k])
                < c.names.len() && c.names[c.deps[p][k] as int]
                == descs[kept[p]].dependency@[k]@ by {
                assert(sources@[p] as int == kept[p]);
                assert(descs[kept[p]] == files@[kept[p]].descriptor);
                assert(c.deps[p][k] == map.deps@[p]@[k]);
                let d = files@[sources@[p] as int].descriptor.dependency@[k]@;
                assert(map.places@.contains_key(d));
            }
            assert forall|p: int| 0 <= p < kept.len() implies {
                &&& 0 <= #[trigger] kept[p] < files@.len()
                &&& c.names[p] == descs[kept[p]].name_spec()
                &&& c.blobs[p] == files@[kept[p]].bytes@
                &&& c.deps[p].len() == descs[kept[p]].dependency@.len()
            } by {
                assert(sources@[p] as int == kept[p]);
                assert(descs[kept[p]] == files@[kept[p]].descriptor);
            }
            assert forall|s: Seq<char>| #[trigger] c.owner.contains_key(s) implies c.owner[s]
                < c.names.len() && c.names[c.owner[s] as int] == state.index[s] by {
                assert(index@.contains_key(s));
                assert(map.places@.contains_key(index@[s]@));
            }
            assert(graph_wf(graph_of(map.deps@))) by {
                assert forall|a: int, k: int|
                    0 <= a < graph_of(map.deps@).len() && 0 <= k < graph_of(
                        map.deps@,
                    )[a].len() implies (#[trigger] graph_of(map.deps@)[a][k]) < graph_of(
                    map.deps@,
                ).len() by {
                    assert(c.deps[a][k] < c.names.len());
                }
            }
            assert(catalog_of(c, files@));
            map.lemma_inv();
        }
        Ok(map)
    }
}

/// `order` lists the places of `files` by name: every place once, the
/// names rising, and of two files of one name the earlier first.
pub open spec fn is_name_order(files: Seq<EncodedFile>, order: Seq<int>) -> bool {
    &&& order.len() == files.len()
    &&& order.no_duplicates()
    &&& forall|k: int| 0 <= k < order.len() ==> 0 <= #[trigger] order[k] < files.len()
    &&& forall|k: int, l: int|
        0 <= k < l < order.len() ==> comes_first(files, #[trigger] order[k], #[trigger] order[l])
}

/// The file at place `a` is to stand before the file at place `b`: its name
/// comes before, or the names are the same and `a` is the earlier place.
pub open spec fn comes_first(files: Seq<EncodedFile>, a: int, b: int) -> bool {
    let first = files[a].descriptor.name_spec();
    let second = files[b].descriptor.name_spec();
    str_before(first, second) || (first == second && a < b)
}

/// `out` holds the files of `files` in the order `order`.
pub open spec fn rearranged(files: Seq<EncodedFile>, order: Seq<int>, out: Seq<EncodedFile>) -> bool {
    &&& out.len() == order.len()
    &&& forall|k: int| 0 <= k < order.len() ==> #[trigger] out[k] == files[order[k]]
}

/// `out` is `files` sorted by name, files of one name in the order in which
/// they came.
pub open spec fn sorted_by_name(files: Seq<EncodedFile>, out: Seq<EncodedFile>) -> bool {
    exists|order: Seq<int>| #[trigger] is_name_order(files, order) && rearranged(files, order, out)
}

/// Sorts the files by name. Files of one name stay in the order in which
/// they came.
pub fn sort_by_name(files: Vec<EncodedFile>) -> (sorted: Vec<EncodedFile>)
    ensures
        sorted_by_name(files@, sorted@),
{
    let ghost all = files@;
    let mut rest = files;
    let mut sorted: Vec<EncodedFile> = Vec::new();
    let ghost mut order: Seq<int> = Seq::empty();
    let ghost mut taken: int = 0;
    while rest.len() > 0
        invariant
            0 <= taken <= all.len(),
            rest@ == all.skip(taken),
            order.len() == taken,
            order.no_duplicates(),
            forall|k: int| 0 <= k < order.len() ==> 0 <= #[trigger] order[k] < taken,
            forall|k: int, l: int|
                0 <= k < l < order.len() ==> comes_first(
                    all,
                    #[trigger] order[k],
                    #[trigger] order[l],
                ),
            rearranged(all, order, sorted@),
        decreases rest@.len(),
    {
        let next = rest.remove(0);
        proof {
            assert(next == all[taken]);
            assert(rest@ =~= all.skip(taken + 1));
        }
        let mut at: usize = sorted.len();
        let mut found = false;
        while at > 0 && !found
            invariant
                at <= sorted@.len(),
                rearranged(all, order, sorted@),
                next == all[taken],
                forall|k: int|
                    at <= k < sorted@.len() ==> str_before(
                        next.descriptor.name_spec(),
                        (#[trigger] sorted@[k]).descriptor.name_spec(),
                    ),
                found ==> at > 0 && !str_before(
                    next.descriptor.name_spec(),
                    sorted@[at - 1].descriptor.name_spec(),
                ),
            decreases at + if found { 0int } else { 1int },
        {
            match rank_str(sorted[at - 1].descriptor.name(), next.descriptor.name()) {
                Rank::After => {
                    at = at - 1;
                },
                _ => {
                    found = true;
                },
            }
        }
        let ghost before = sorted@;
        let ghost old_order = order;
        sorted.insert(at, next);
        proof {
            order = old_order.insert(at as int, taken);
            let name = next.descriptor.name_spec();
            assert forall|k: int| 0 <= k < order.len() implies 0 <= #[trigger] order[k] < taken
                + 1 by {
                if k < at {
                    assert(order[k] == old_order[k]);
                } else if k > at {
                    assert(order[k] == old_order[k - 1]);
                }
            }
            assert(order.no_duplicates()) by {
                assert forall|i: int, j: int|
                    0 <= i < order.len() && 0 <= j < order.len() && i != j implies order[i]
                    != order[j] by {
                    let a = if i < at { i } else { i - 1 };
                    let b = if j < at { j } else { j - 1 };
                    if i != at && j != at {
                        assert(order[i] == old_order[a] && order[j] == old_order[b]);
                    } else if i == at {
                        assert(order[j] == old_order[b]);
                    } else {
                        assert(order[i] == old_order[a]);
                    }
                }
            }
            // Every file before the place stands before the new one.
            assert forall|k: int| 0 <= k < at implies comes_first(all, old_order[k], taken) by {
                assert(before[at - 1] == all[old_order[at - 1]]);
                let last = all[old_order[at - 1]].descriptor.name_spec();
                lemma_str_before_total(last, name);
                if k < at - 1 {
                    assert(comes_first(all, old_order[k], old_order[at - 1]));
                    let this = all[old_order[k]].descriptor.name_spec();
                    if str_before(this, last) && str_before(last, name) {
                        lemma_str_before_transitive(this, last, name);
                    }
                }
            }
            assert forall|k: int, l: int| 0 <= k < l < order.len() implies comes_first(
                all,
                #[trigger] order[k],
                #[trigger] order[l],
            ) by {
                let a = if k < at { k } else { k - 1 };
                let b = if l < at { l } else { l - 1 };
                if k == at {
                    assert(order[l] == old_order[b]);
                    assert(before[b] == all[old_order[b]]);
                } else if l == at {
                    assert(order[k] == old_order[a]);
                } else {
                    assert(order[k] == old_order[a] && order[l] == old_order[b]);
                }
            }
            assert forall|k: int| 0 <= k < order.len() implies #[trigger] sorted@[k]
                == all[order[k]] by {
                if k < at {
                    assert(sorted@[k] == before[k]);
                } else if k > at {
                    assert(sorted@[k] == before[k - 1]);
                }
            }
            taken = taken + 1;
        }
    }
    proof {
        assert(is_name_order(all, order));
    }
    sorted
}

impl LazyDescriptorMap {
    /// Builds the lookup of a set of files as it comes from the compiler:
    /// sorts the files by name, then builds the lookup of the sorted files.
    pub fn from_descriptor_set(files: Vec<EncodedFile>) -> (r: Result<
        LazyDescriptorMap,
        MissingDependency,
    >)
        ensures
            exists|sorted: Seq<EncodedFile>| #[trigger]
                sorted_by_name(files@, sorted) && match r {
                    Ok(m) => m.inv() && catalog_wf(m@) && catalog_of(m@, sorted)
                        && closed_under_dependencies(
                        build_spec(descriptors_of(sorted), sorted.len()),
                    ),
                    Err(e) => is_first_missing(
                        build_spec(descriptors_of(sorted), sorted.len()),
                        e.filename@,
                    ),
                },
    {
        let sorted = sort_by_name(files);
        let r = LazyDescriptorMap::from_descriptors(&sorted);
        assert(sorted_by_name(files@, sorted@));
        r
    }
}

} // verus!
