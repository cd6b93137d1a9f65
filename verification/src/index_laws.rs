//! What holds of the symbol index whatever the files are and in whatever
//! order they come.

use vstd::prelude::*;
use crate::descriptor::{
    file_declares_service, file_defines, file_depends_on, FileDescriptorProto,
};
use crate::symbol_map::{
    build_spec, closed_under_dependencies, insert_spec, is_first_missing, is_missing, IndexState,
};

verus! {

/// No earlier file of `files` has the name of the file at place `i`.
pub open spec fn first_of_its_name(files: Seq<FileDescriptorProto>, i: int) -> bool {
    forall|j: int| 0 <= j < i ==> (#[trigger] files[j]).name_spec() != files[i].name_spec()
}

/// No two files of `files` have one name.
pub open spec fn distinct_names(files: Seq<FileDescriptorProto>) -> bool {
    forall|i: int, j: int|
        0 <= i < j < files.len() ==> (#[trigger] files[i]).name_spec() != (
        #[trigger] files[j]).name_spec()
}

/// Every file of `first` is a file of `second`.
pub open spec fn files_among(
    first: Seq<FileDescriptorProto>,
    second: Seq<FileDescriptorProto>,
) -> bool {
    forall|i: int| 0 <= i < first.len() ==> second.contains(#[trigger] first[i])
}

/// No symbol is defined by two files of `files`.
pub open spec fn collision_free(files: Seq<FileDescriptorProto>) -> bool {
    forall|i: int, j: int, s: Seq<char>|
        0 <= i < files.len() && 0 <= j < files.len() && i != j && #[trigger] file_defines(
            files[i],
            s,
        ) ==> !#[trigger] file_defines(files[j], s)
}

/// Every name in a dependency list of `files` is the name of one of them.
pub open spec fn import_closed(files: Seq<FileDescriptorProto>) -> bool {
    forall|i: int, name: Seq<char>|
        0 <= i < files.len() && #[trigger] file_depends_on(files[i], name) ==> exists|j: int|
            0 <= j < files.len() && (#[trigger] files[j]).name_spec() == name
}

/// The files put in are those of the names seen.
pub proof fn lemma_processed_names(files: Seq<FileDescriptorProto>, n: nat)
    requires
        n <= files.len(),
    ensures
        forall|name: Seq<char>|
            build_spec(files, n).processed.contains(name) <==> exists|j: int|
                0 <= j < n && (#[trigger] files[j]).name_spec() == name,
    decreases n,
{
    if n > 0 {
        lemma_processed_names(files, (n - 1) as nat);
        let prev = build_spec(files, (n - 1) as nat);
        let last = files[n - 1];
        assert forall|name: Seq<char>|
            build_spec(files, n).processed.contains(name) <==> exists|j: int|
                0 <= j < n && (#[trigger] files[j]).name_spec() == name by {
            if build_spec(files, n).processed.contains(name) {
                if prev.processed.contains(name) {
                    let j = choose|j: int|
                        0 <= j < n - 1 && (#[trigger] files[j]).name_spec() == name;
                    assert(0 <= j < n && files[j].name_spec() == name);
                } else {
                    assert(name == last.name_spec());
                    assert(files[n - 1].name_spec() == name);
                }
            }
            if exists|j: int| 0 <= j < n && (#[trigger] files[j]).name_spec() == name {
                let j = choose|j: int| 0 <= j < n && (#[trigger] files[j]).name_spec() == name;
                if j < n - 1 {
                    assert(prev.processed.contains(name));
                }
            }
        }
    }
}

/// The file at place `n - 1` is put in when and only when it is the first of
/// its name.
proof fn lemma_step(files: Seq<FileDescriptorProto>, n: nat)
    requires
        0 < n <= files.len(),
    ensures
        build_spec(files, n) == insert_spec(
            build_spec(files, (n - 1) as nat),
            files[n - 1].name_spec(),
            files[n - 1],
        ),
        first_of_its_name(files, n - 1) <==> !build_spec(files, (n - 1) as nat).processed.contains(
            files[n - 1].name_spec(),
        ),
{
    lemma_processed_names(files, (n - 1) as nat);
    let name = files[n - 1].name_spec();
    if !first_of_its_name(files, n - 1) {
        let j = choose|j: int| 0 <= j < n - 1 && (#[trigger] files[j]).name_spec() == name;
        assert(build_spec(files, (n - 1) as nat).processed.contains(name));
    }
}

/// What the index, the services and the dependencies hold after the first
/// `n` files: what the files that are the first of their name define,
/// declare and list.
pub proof fn lemma_build_contents(files: Seq<FileDescriptorProto>, n: nat)
    requires
        n <= files.len(),
    ensures
        forall|s: Seq<char>|
            build_spec(files, n).index.contains_key(s) <==> exists|i: int|
                0 <= i < n && first_of_its_name(files, i) && file_defines(#[trigger] files[i], s),
        forall|s: Seq<char>|
            build_spec(files, n).services.contains(s) <==> exists|i: int|
                0 <= i < n && first_of_its_name(files, i) && file_declares_service(
                    #[trigger] files[i],
                    s,
                ),
        forall|d: Seq<char>|
            build_spec(files, n).dependencies.contains(d) <==> exists|i: int|
                0 <= i < n && first_of_its_name(files, i) && file_depends_on(
                    #[trigger] files[i],
                    d,
                ),
        forall|s: Seq<char>| #[trigger]
            build_spec(files, n).index.contains_key(s) ==> exists|i: int|
                0 <= i < n && first_of_its_name(files, i) && file_defines(#[trigger] files[i], s)
                    && build_spec(files, n).index[s] == files[i].name_spec(),
    decreases n,
{
    if n > 0 {
        lemma_build_contents(files, (n - 1) as nat);
        lemma_step(files, n);
        let prev = build_spec(files, (n - 1) as nat);
        let now = build_spec(files, n);
        let last = files[n - 1];
        let fresh = first_of_its_name(files, n - 1);
        assert forall|s: Seq<char>|
            now.index.contains_key(s) <==> exists|i: int|
                0 <= i < n && first_of_its_name(files, i) && file_defines(
                    #[trigger] files[i],
                    s,
                ) by {
            if now.index.contains_key(s) {
                if prev.index.contains_key(s) {
                    let i = choose|i: int|
                        0 <= i < n - 1 && first_of_its_name(files, i) && file_defines(
                            #[trigger] files[i],
                            s,
                        );
                    assert(0 <= i < n && first_of_its_name(files, i) && file_defines(files[i], s));
                } else {
                    assert(fresh && file_defines(files[n - 1], s));
                }
            }
            if exists|i: int|
                0 <= i < n && first_of_its_name(files, i) && file_defines(#[trigger] files[i], s) {
                let i = choose|i: int|
                    0 <= i < n && first_of_its_name(files, i) && file_defines(
                        #[trigger] files[i],
                        s,
                    );
                if i < n - 1 {
                    assert(prev.index.contains_key(s));
                }
            }
        }
        assert forall|s: Seq<char>|
            now.services.contains(s) <==> exists|i: int|
                0 <= i < n && first_of_its_name(files, i) && file_declares_service(
                    #[trigger] files[i],
                    s,
                ) by {
            if now.services.contains(s) {
                if prev.services.contains(s) {
                    let i = choose|i: int|
                        0 <= i < n - 1 && first_of_its_name(files, i) && file_declares_service(
                            #[trigger] files[i],
                            s,
                        );
                    assert(0 <= i < n && first_of_its_name(files, i) && file_declares_service(
                        files[i],
                        s,
                    ));
                } else {
                    assert(fresh && file_declares_service(files[n - 1], s));
                }
            }
            if exists|i: int|
                0 <= i < n && first_of_its_name(files, i) && file_declares_service(
                    #[trigger] files[i],
                    s,
                ) {
                let i = choose|i: int|
                    0 <= i < n && first_of_its_name(files, i) && file_declares_service(
                        #[trigger] files[i],
                        s,
                    );
                if i < n - 1 {
                    assert(prev.services.contains(s));
                }
            }
        }
        assert forall|d: Seq<char>|
            now.dependencies.contains(d) <==> exists|i: int|
                0 <= i < n && first_of_its_name(files, i) && file_depends_on(
                    #[trigger] files[i],
                    d,
                ) by {
            if now.dependencies.contains(d) {
                if prev.dependencies.contains(d) {
                    let i = choose|i: int|
                        0 <= i < n - 1 && first_of_its_name(files, i) && file_depends_on(
                            #[trigger] files[i],
                            d,
                        );
                    assert(0 <= i < n && first_of_its_name(files, i) && file_depends_on(
                        files[i],
                        d,
                    ));
                } else {
                    assert(fresh && file_depends_on(files[n - 1], d));
                }
            }
            if exists|i: int|
                0 <= i < n && first_of_its_name(files, i) && file_depends_on(
                    #[trigger] files[i],
                    d,
                ) {
                let i = choose|i: int|
                    0 <= i < n && first_of_its_name(files, i) && file_depends_on(
                        #[trigger] files[i],
                        d,
                    );
                if i < n - 1 {
                    assert(prev.dependencies.contains(d));
                }
            }
        }
        assert forall|s: Seq<char>| #[trigger] now.index.contains_key(s) implies exists|i: int|
            0 <= i < n && first_of_its_name(files, i) && file_defines(#[trigger] files[i], s)
                && now.index[s] == files[i].name_spec() by {
            if fresh && file_defines(last, s) {
                assert(now.index[s] == files[n - 1].name_spec());
            } else {
                assert(prev.index.contains_key(s));
                let i = choose|i: int|
                    0 <= i < n - 1 && first_of_its_name(files, i) && file_defines(
                        #[trigger] files[i],
                        s,
                    ) && prev.index[s] == files[i].name_spec();
                assert(now.index[s] == prev.index[s]);
                assert(0 <= i < n && first_of_its_name(files, i) && file_defines(files[i], s)
                    && now.index[s] == files[i].name_spec());
            }
        }
    }
}

/// Whatever the files and their order, the index holds every symbol that a
/// file defines, under its fully-qualified name: every message, enum, enum
/// value, field, extension, oneof declaration, service and method, at any
/// depth. (Of several files of one name only the first is read.)
pub proof fn law_every_symbol_indexed(files: Seq<FileDescriptorProto>, i: int, symbol: Seq<char>)
    requires
        0 <= i < files.len(),
        first_of_its_name(files, i),
        file_defines(files[i], symbol),
    ensures
        build_spec(files, files.len()).index.contains_key(symbol),
{
    lemma_build_contents(files, files.len());
}

/// Every entry of the index names a file that defines the symbol, and every
/// service of the set is declared by a file.
pub proof fn law_index_names_definers(files: Seq<FileDescriptorProto>, symbol: Seq<char>)
    ensures
        build_spec(files, files.len()).index.contains_key(symbol) ==> exists|i: int|
            0 <= i < files.len() && file_defines(#[trigger] files[i], symbol) && build_spec(
                files,
                files.len(),
            ).index[symbol] == files[i].name_spec(),
        build_spec(files, files.len()).services.contains(symbol) ==> exists|i: int|
            0 <= i < files.len() && file_declares_service(#[trigger] files[i], symbol),
{
    lemma_build_contents(files, files.len());
    let built = build_spec(files, files.len());
    if built.index.contains_key(symbol) {
        let i = choose|i: int|
            0 <= i < files.len() && first_of_its_name(files, i) && file_defines(
                #[trigger] files[i],
                symbol,
            ) && built.index[symbol] == files[i].name_spec();
        assert(0 <= i < files.len() && file_defines(files[i], symbol) && built.index[symbol]
            == files[i].name_spec());
    }
    if built.services.contains(symbol) {
        let i = choose|i: int|
            0 <= i < files.len() && first_of_its_name(files, i) && file_declares_service(
                #[trigger] files[i],
                symbol,
            );
        assert(0 <= i < files.len() && file_declares_service(files[i], symbol));
    }
}

/// To put a file in a second time under the same name changes nothing,
/// whatever the second file holds.
pub proof fn law_second_insert_changes_nothing(
    state: IndexState,
    filename: Seq<char>,
    file: FileDescriptorProto,
    again: FileDescriptorProto,
)
    ensures
        insert_spec(insert_spec(state, filename, file), filename, again) == insert_spec(
            state,
            filename,
            file,
        ),
{
}

/// A file that comes again at the end of the list, as it does when it is both
/// given and depended on, leaves the state as it was without it.
pub proof fn law_repeated_file_changes_nothing(
    files: Seq<FileDescriptorProto>,
    again: FileDescriptorProto,
    i: int,
)
    requires
        0 <= i < files.len(),
        files[i].name_spec() == again.name_spec(),
    ensures
        build_spec(files.push(again), files.len() + 1) == build_spec(files, files.len()),
{
    let longer = files.push(again);
    lemma_same_prefix(longer, files, files.len());
    lemma_processed_names(files, files.len());
    assert(build_spec(files, files.len()).processed.contains(again.name_spec()));
    assert(longer[files.len() as int] == again);
}

/// Two lists that agree on their first `n` files give the same state after
/// `n` files.
proof fn lemma_same_prefix(a: Seq<FileDescriptorProto>, b: Seq<FileDescriptorProto>, n: nat)
    requires
        n <= a.len(),
        n <= b.len(),
        forall|i: int| 0 <= i < n ==> a[i] == b[i],
    ensures
        build_spec(a, n) == build_spec(b, n),
    decreases n,
{
    if n > 0 {
        lemma_same_prefix(a, b, (n - 1) as nat);
    }
}

/// Where a dependency list names a file that is not among the files, the
/// state is not closed under dependencies and that name is missing.
pub proof fn law_absent_dependency_is_missing(
    files: Seq<FileDescriptorProto>,
    i: int,
    name: Seq<char>,
)
    requires
        0 <= i < files.len(),
        first_of_its_name(files, i),
        file_depends_on(files[i], name),
        forall|j: int| 0 <= j < files.len() ==> (#[trigger] files[j]).name_spec() != name,
    ensures
        is_missing(build_spec(files, files.len()), name),
        !closed_under_dependencies(build_spec(files, files.len())),
{
    lemma_build_contents(files, files.len());
    lemma_processed_names(files, files.len());
    let built = build_spec(files, files.len());
    assert(built.dependencies.contains(name));
    if built.processed.contains(name) {
        let j = choose|j: int| 0 <= j < files.len() && (#[trigger] files[j]).name_spec() == name;
        assert(false);
    }
}

/// Where a name read in a dependency list is the name of no file put in, the
/// state is not closed under dependencies, so that construction fails; and
/// the file that the failure names is such a name, never the name of a file
/// put in: the very one where only one is missing.
pub proof fn law_failure_names_a_missing_file(
    state: IndexState,
    missing: Seq<char>,
    named: Seq<char>,
)
    requires
        is_missing(state, missing),
        is_first_missing(state, named),
    ensures
        !closed_under_dependencies(state),
        state.dependencies.contains(named),
        !state.processed.contains(named),
        (forall|other: Seq<char>| #[trigger] is_missing(state, other) ==> other == missing)
            ==> named == missing,
{
}

/// Where every name in a dependency list is the name of one of the files,
/// the state is closed under dependencies, whatever the order of the files.
pub proof fn law_closed_set_is_accepted(files: Seq<FileDescriptorProto>)
    requires
        import_closed(files),
    ensures
        closed_under_dependencies(build_spec(files, files.len())),
{
    lemma_build_contents(files, files.len());
    lemma_processed_names(files, files.len());
    let built = build_spec(files, files.len());
    assert forall|name: Seq<char>| built.dependencies.contains(name) implies built.processed.contains(
        name,
    ) by {
        let i = choose|i: int|
            0 <= i < files.len() && first_of_its_name(files, i) && file_depends_on(
                #[trigger] files[i],
                name,
            );
        let j = choose|j: int| 0 <= j < files.len() && (#[trigger] files[j]).name_spec() == name;
        assert(0 <= j < files.len() && files[j].name_spec() == name);
    }
}

/// The place at which a file of `first` stands in `second`.
proof fn lemma_place_in(
    first: Seq<FileDescriptorProto>,
    second: Seq<FileDescriptorProto>,
    i: int,
) -> (k: int)
    requires
        files_among(first, second),
        distinct_names(second),
        0 <= i < first.len(),
    ensures
        0 <= k < second.len(),
        second[k] == first[i],
        first_of_its_name(second, k),
{
    assert(second.contains(first[i]));
    let k = choose|k: int| 0 <= k < second.len() && second[k] == first[i];
    k
}

/// One set of files with different names, put in in two different orders,
/// gives the same symbols, the same services, the same files put in and the
/// same dependencies; and the same index throughout where no symbol is
/// defined twice.
pub proof fn law_order_does_not_matter(
    first: Seq<FileDescriptorProto>,
    second: Seq<FileDescriptorProto>,
)
    requires
        distinct_names(first),
        distinct_names(second),
        files_among(first, second),
        files_among(second, first),
    ensures
        build_spec(first, first.len()).index.dom() == build_spec(second, second.len()).index.dom(),
        build_spec(first, first.len()).services == build_spec(second, second.len()).services,
        build_spec(first, first.len()).processed == build_spec(second, second.len()).processed,
        build_spec(first, first.len()).dependencies == build_spec(
            second,
            second.len(),
        ).dependencies,
        collision_free(first) ==> build_spec(first, first.len()).index == build_spec(
            second,
            second.len(),
        ).index,
{
    let a = build_spec(first, first.len());
    let b = build_spec(second, second.len());
    lemma_one_way(first, second);
    lemma_one_way(second, first);
    assert(a.index.dom() =~= b.index.dom());
    assert(a.services =~= b.services);
    assert(a.processed =~= b.processed);
    assert(a.dependencies =~= b.dependencies);
    if collision_free(first) {
        lemma_build_contents(first, first.len());
        lemma_build_contents(second, second.len());
        assert forall|s: Seq<char>| a.index.contains_key(s) implies #[trigger] a.index[s]
            == b.index[s] by {
            assert(b.index.dom().contains(s));
            assert(b.index.contains_key(s));
            let i = choose|i: int|
                0 <= i < first.len() && first_of_its_name(first, i) && file_defines(
                    #[trigger] first[i],
                    s,
                ) && a.index[s] == first[i].name_spec();
            let k = choose|k: int|
                0 <= k < second.len() && first_of_its_name(second, k) && file_defines(
                    #[trigger] second[k],
                    s,
                ) && b.index[s] == second[k].name_spec();
            assert(first.contains(second[k]));
            let j = choose|j: int| 0 <= j < first.len() && first[j] == second[k];
            assert(file_defines(first[j], s));
            if i != j {
                assert(!file_defines(first[j], s));
            }
        }
        assert(a.index =~= b.index);
    }
}

/// What the state of `first` holds, that of `second` holds too.
proof fn lemma_one_way(first: Seq<FileDescriptorProto>, second: Seq<FileDescriptorProto>)
    requires
        distinct_names(second),
        files_among(first, second),
    ensures
        build_spec(first, first.len()).index.dom().subset_of(
            build_spec(second, second.len()).index.dom(),
        ),
        build_spec(first, first.len()).services.subset_of(
            build_spec(second, second.len()).services,
        ),
        build_spec(first, first.len()).processed.subset_of(
            build_spec(second, second.len()).processed,
        ),
        build_spec(first, first.len()).dependencies.subset_of(
            build_spec(second, second.len()).dependencies,
        ),
{
    let a = build_spec(first, first.len());
    let b = build_spec(second, second.len());
    lemma_build_contents(first, first.len());
    lemma_build_contents(second, second.len());
    lemma_processed_names(first, first.len());
    lemma_processed_names(second, second.len());
    assert forall|s: Seq<char>| a.index.dom().contains(s) implies b.index.dom().contains(s) by {
        assert(a.index.contains_key(s));
        let i = choose|i: int|
            0 <= i < first.len() && first_of_its_name(first, i) && file_defines(
                #[trigger] first[i],
                s,
            );
        let k = lemma_place_in(first, second, i);
        assert(file_defines(second[k], s));
        assert(b.index.contains_key(s));
    }
    assert forall|s: Seq<char>| a.services.contains(s) implies b.services.contains(s) by {
        let i = choose|i: int|
            0 <= i < first.len() && first_of_its_name(first, i) && file_declares_service(
                #[trigger] first[i],
                s,
            );
        let k = lemma_place_in(first, second, i);
        assert(file_declares_service(second[k], s));
    }
    assert forall|s: Seq<char>| a.processed.contains(s) implies b.processed.contains(s) by {
        let i = choose|i: int| 0 <= i < first.len() && (#[trigger] first[i]).name_spec() == s;
        let k = lemma_place_in(first, second, i);
        assert(second[k].name_spec() == s);
    }
    assert forall|s: Seq<char>| a.dependencies.contains(s) implies b.dependencies.contains(s) by {
        let i = choose|i: int|
            0 <= i < first.len() && first_of_its_name(first, i) && file_depends_on(
                #[trigger] first[i],
                s,
            );
        let k = lemma_place_in(first, second, i);
        assert(file_depends_on(second[k], s));
    }
}

} // verus!
