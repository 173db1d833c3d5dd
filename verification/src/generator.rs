use crate::cli::Opt;
use crate::descriptor::decoded_packages;
use crate::descriptor::parse_descriptor_set;
use crate::descriptor::DescriptorSet;
use crate::error::ErrorKind;
use crate::error::TranspileError;
use crate::module_tree::lemma_insert_keeps_others;
use crate::module_tree::lemma_inserted_is_found;
use crate::module_tree::lemma_inserted_wf;
use crate::module_tree::ModuleModel;
use crate::module_tree::RustModule;
use crate::text::lemma_segments_injective;
use crate::text::segments;
use crate::text::views;
use vstd::prelude::*;
use vstd::string::*;

verus! {

/// A generated source file for one package, as found beside the output:
/// its file name and its text.
#[derive(Debug)]
pub struct Fragment {
    pub file_name: String,
    pub contents: String,
}

impl View for Fragment {
    type V = (Seq<char>, Seq<char>);

    open spec fn view(&self) -> (Seq<char>, Seq<char>) {
        (self.file_name@, self.contents@)
    }
}

/// The views of a list of fragments.
pub open spec fn fragment_views(fragments: Seq<Fragment>) -> Seq<(Seq<char>, Seq<char>)> {
    Seq::new(fragments.len(), |i: int| fragments[i]@)
}

/// The name of the file that holds a package's generated source.
pub open spec fn fragment_name(package: Seq<char>) -> Seq<char> {
    package + ".rs"@
}

/// The text of the first fragment at or after `from` that is named `name`.
pub open spec fn fragment_from(
    fragments: Seq<(Seq<char>, Seq<char>)>,
    name: Seq<char>,
    from: int,
) -> Option<Seq<char>>
    decreases fragments.len() - from,
{
    if from < 0 || from >= fragments.len() {
        None
    } else if fragments[from].0 == name {
        Some(fragments[from].1)
    } else {
        fragment_from(fragments, name, from + 1)
    }
}

/// The state of an assembly run: the tree so far, and the packages that
/// were materialized, in the order in which they were first met.
pub struct Assembly {
    pub tree: ModuleModel,
    pub seen: Seq<Seq<char>>,
}

impl Assembly {
    /// The state before any file descriptor was read.
    pub open spec fn initial() -> Assembly {
        Assembly { tree: ModuleModel::empty(), seen: Seq::empty() }
    }

    /// The state after one more file descriptor. A descriptor without a
    /// package is fatal. A package met before changes nothing. A new package
    /// is recorded, and its fragment attached at its dotted path.
    pub open spec fn absorb(
        self,
        file: Option<Seq<char>>,
        fragments: Seq<(Seq<char>, Seq<char>)>,
    ) -> Result<Assembly, (ErrorKind, Seq<char>)> {
        match file {
            None => Err((ErrorKind::MissingPackage, "No package specified"@)),
            Some(package) => if self.seen.contains(package) {
                Ok(self)
            } else {
                match fragment_from(fragments, fragment_name(package), 0) {
                    None => Err((ErrorKind::FragmentNotFound, fragment_name(package))),
                    Some(text) => if package.len() == 0 {
                        Err((ErrorKind::InvalidPath, Seq::<char>::empty()))
                    } else {
                        Ok(
                            Assembly {
                                tree: self.tree.inserted(segments(package), text),
                                seen: self.seen.push(package),
                            },
                        )
                    },
                }
            },
        }
    }

    /// No package is recorded twice; every package recorded so far has a
    /// fragment, and the text of that fragment stands in the tree at the
    /// package's dotted path.
    pub open spec fn faithful(self, fragments: Seq<(Seq<char>, Seq<char>)>) -> bool {
        &&& self.tree.wf()
        &&& forall|i: int, j: int|
            0 <= i < j < self.seen.len() ==> #[trigger] self.seen[i] != #[trigger] self.seen[j]
        &&& forall|j: int|
            0 <= j < self.seen.len() ==> {
                &&& fragment_from(fragments, fragment_name(#[trigger] self.seen[j]), 0) is Some
                &&& self.tree.contents_at(segments(self.seen[j])) == fragment_from(
                    fragments,
                    fragment_name(self.seen[j]),
                    0,
                )
            }
    }

    /// The state after the first `n` file descriptors of `files`, or the
    /// first error met on the way.
    pub open spec fn absorb_files(
        self,
        files: Seq<Option<Seq<char>>>,
        n: nat,
        fragments: Seq<(Seq<char>, Seq<char>)>,
    ) -> Result<Assembly, (ErrorKind, Seq<char>)>
        decreases n,
    {
        if n == 0 || n > files.len() {
            Ok(self)
        } else {
            match self.absorb_files(files, (n - 1) as nat, fragments) {
                Ok(state) => state.absorb(files[n - 1], fragments),
                Err(e) => Err(e),
            }
        }
    }

    /// The state after the first `n` descriptor sets of `sets`, each read
    /// whole, or the first error met on the way.
    pub open spec fn absorb_sets(
        self,
        sets: Seq<Seq<Option<Seq<char>>>>,
        n: nat,
        fragments: Seq<(Seq<char>, Seq<char>)>,
    ) -> Result<Assembly, (ErrorKind, Seq<char>)>
        decreases n,
    {
        if n == 0 || n > sets.len() {
            Ok(self)
        } else {
            match self.absorb_sets(sets, (n - 1) as nat, fragments) {
                Ok(state) => state.absorb_files(sets[n - 1], sets[n - 1].len(), fragments),
                Err(e) => Err(e),
            }
        }
    }
}

/// The tree of a whole run: the transitive sets in the order given, then the
/// direct set.
pub open spec fn assembled(
    transitive: Seq<Seq<Option<Seq<char>>>>,
    direct: Seq<Option<Seq<char>>>,
    fragments: Seq<(Seq<char>, Seq<char>)>,
) -> Result<ModuleModel, (ErrorKind, Seq<char>)> {
    match Assembly::initial().absorb_sets(transitive.push(direct), transitive.len() + 1, fragments) {
        Ok(state) => Ok(state.tree),
        Err(e) => Err(e),
    }
}

/// The views of a list of descriptor sets.
pub open spec fn set_views(sets: Seq<DescriptorSet>) -> Seq<Seq<Option<Seq<char>>>> {
    Seq::new(sets.len(), |i: int| sets[i]@)
}

/// The text of the generated library: the serialized tree of the run.
pub open spec fn librs_text(
    transitive: Seq<Seq<Option<Seq<char>>>>,
    direct: Seq<Option<Seq<char>>>,
    fragments: Seq<(Seq<char>, Seq<char>)>,
) -> Result<Seq<char>, (ErrorKind, Seq<char>)> {
    match assembled(transitive, direct, fragments) {
        Ok(tree) => Ok(tree.serialized()),
        Err(e) => Err(e),
    }
}

/// The file name of a package's fragment.
pub fn fragment_file_name(package: &str) -> (r: String)
    ensures
        r@ == fragment_name(package@),
{
    let mut name: String = String::from_str(package);
    name.append(".rs");
    name
}

fn find_fragment<'a>(fragments: &'a Vec<Fragment>, name: &String) -> (r: Option<&'a String>)
    ensures
        match r {
            Some(text) => fragment_from(fragment_views(fragments@), name@, 0) == Some(text@),
            None => fragment_from(fragment_views(fragments@), name@, 0) is None,
        },
{
    let mut i: usize = 0;
    while i < fragments.len()
        invariant
            i <= fragments@.len(),
            fragment_from(fragment_views(fragments@), name@, 0) == fragment_from(
                fragment_views(fragments@),
                name@,
                i as int,
            ),
        decreases fragments@.len() - i,
    {
        if fragments[i].file_name == *name {
            return Some(&fragments[i].contents);
        }
        i += 1;
    }
    None
}

fn was_seen(seen: &Vec<String>, package: &String) -> (r: bool)
    ensures
        r == views(seen@).contains(package@),
{
    let mut i: usize = 0;
    while i < seen.len()
        invariant
            i <= seen@.len(),
            forall|j: int| 0 <= j < i ==> views(seen@)[j] != package@,
        decreases seen@.len() - i,
    {
        if seen[i] == *package {
            assert(views(seen@)[i as int] == package@);
            return true;
        }
        i += 1;
    }
    false
}

fn absorb_file(
    tree: &mut RustModule,
    seen: &mut Vec<String>,
    file: &Option<String>,
    fragments: &Vec<Fragment>,
) -> (r: Result<(), TranspileError>)
    requires
        old(tree).wf(),
    ensures
        final(tree).wf(),
        match (Assembly { tree: old(tree)@, seen: views(old(seen)@) }).absorb(
            match *file {
                Some(name) => Some(name@),
                None => None,
            },
            fragment_views(fragments@),
        ) {
            Ok(state) => r is Ok && final(tree)@ == state.tree && views(final(seen)@)
                == state.seen,
            Err(e) => r is Err && r->Err_0@ == e,
        },
{
    match file {
        None => Err(
            TranspileError {
                kind: ErrorKind::MissingPackage,
                detail: String::from_str("No package specified"),
            },
        ),
        Some(package) => {
            if was_seen(seen, package) {
                return Ok(());
            }
            let ghost before = views(seen@);
            seen.push(package.clone());
            assert(views(seen@) =~= before.push(package@));
            let file_name: String = fragment_file_name(package.as_str());
            match find_fragment(fragments, &file_name) {
                None => Err(TranspileError { kind: ErrorKind::FragmentNotFound, detail: file_name }),
                Some(text) => tree.insert_module(package.as_str(), text.clone()),
            }
        },
    }
}

fn absorb_set(
    tree: &mut RustModule,
    seen: &mut Vec<String>,
    set: &DescriptorSet,
    fragments: &Vec<Fragment>,
) -> (r: Result<(), TranspileError>)
    requires
        old(tree).wf(),
    ensures
        final(tree).wf(),
        match (Assembly { tree: old(tree)@, seen: views(old(seen)@) }).absorb_files(
            set@,
            set@.len(),
            fragment_views(fragments@),
        ) {
            Ok(state) => r is Ok && final(tree)@ == state.tree && views(final(seen)@)
                == state.seen,
            Err(e) => r is Err && r->Err_0@ == e,
        },
{
    let ghost start = Assembly { tree: tree@, seen: views(seen@) };
    let mut i: usize = 0;
    while i < set.packages.len()
        invariant
            i <= set.packages@.len(),
            set@.len() == set.packages@.len(),
            tree.wf(),
            start == (Assembly { tree: old(tree)@, seen: views(old(seen)@) }),
            start.absorb_files(set@, i as nat, fragment_views(fragments@)) == Ok::<
                Assembly,
                (ErrorKind, Seq<char>),
            >(Assembly { tree: tree@, seen: views(seen@) }),
        decreases set.packages@.len() - i,
    {
        assert(set@[i as int] == match set.packages@[i as int] {
            Some(name) => Some(name@),
            None => None,
        });
        assert(start.absorb_files(set@, (i + 1) as nat, fragment_views(fragments@)) == (Assembly {
            tree: tree@,
            seen: views(seen@),
        }).absorb(set@[i as int], fragment_views(fragments@)));
        match absorb_file(tree, seen, &set.packages[i], fragments) {
            Ok(()) => {},
            Err(e) => {
                proof {
                    let frags = fragment_views(fragments@);
                    assert(start.absorb_files(set@, (i + 1) as nat, frags) is Err);
                    lemma_error_stays(start, set@, (i + 1) as nat, frags);
                }
                return Err(e);
            },
        }
        i += 1;
    }
    Ok(())
}

/// Once the first `n` file descriptors have failed, so has the whole set,
/// with the same error.
pub proof fn lemma_error_stays(
    state: Assembly,
    files: Seq<Option<Seq<char>>>,
    n: nat,
    fragments: Seq<(Seq<char>, Seq<char>)>,
)
    requires
        n <= files.len(),
        state.absorb_files(files, n, fragments) is Err,
    ensures
        state.absorb_files(files, files.len(), fragments) == state.absorb_files(
            files,
            n,
            fragments,
        ),
    decreases files.len() - n,
{
    if n < files.len() {
        lemma_error_stays(state, files, n + 1, fragments);
    }
}

/// Once the first `n` descriptor sets have failed, so has the whole run,
/// with the same error.
pub proof fn lemma_set_error_stays(
    state: Assembly,
    sets: Seq<Seq<Option<Seq<char>>>>,
    n: nat,
    fragments: Seq<(Seq<char>, Seq<char>)>,
)
    requires
        n <= sets.len(),
        state.absorb_sets(sets, n, fragments) is Err,
    ensures
        state.absorb_sets(sets, sets.len(), fragments) == state.absorb_sets(sets, n, fragments),
    decreases sets.len() - n,
{
    if n < sets.len() {
        lemma_set_error_stays(state, sets, n + 1, fragments);
    }
}

/// A package that was met before is skipped: the tree and the set of
/// packages stay as they are, whatever the fragments hold.
pub proof fn lemma_seen_package_is_skipped(
    state: Assembly,
    package: Seq<char>,
    fragments: Seq<(Seq<char>, Seq<char>)>,
)
    requires
        state.seen.contains(package),
    ensures
        state.absorb(Some(package), fragments) == Ok::<Assembly, (ErrorKind, Seq<char>)>(state),
{
}

/// A package that is met for the first time is recorded, and the text of
/// its fragment is then found in the tree at the package's dotted path.
pub proof fn lemma_new_package_is_attached(
    state: Assembly,
    package: Seq<char>,
    fragments: Seq<(Seq<char>, Seq<char>)>,
)
    requires
        state.tree.wf(),
        !state.seen.contains(package),
        package.len() > 0,
        fragment_from(fragments, fragment_name(package), 0) is Some,
    ensures
        state.absorb(Some(package), fragments) is Ok,
        state.absorb(Some(package), fragments)->Ok_0.seen.contains(package),
        state.absorb(Some(package), fragments)->Ok_0.tree.wf(),
        state.absorb(Some(package), fragments)->Ok_0.tree.contents_at(segments(package))
            == fragment_from(fragments, fragment_name(package), 0),
{
    let text = fragment_from(fragments, fragment_name(package), 0)->Some_0;
    lemma_inserted_is_found(state.tree, segments(package), text);
    lemma_inserted_wf(state.tree, segments(package), text);
    assert(state.seen.push(package)[state.seen.len() as int] == package);
}

/// One more file descriptor keeps the state faithful: the packages recorded
/// before keep their text, and the descriptor's package is recorded with its
/// own.
pub proof fn lemma_absorb_keeps_faith(
    state: Assembly,
    file: Option<Seq<char>>,
    fragments: Seq<(Seq<char>, Seq<char>)>,
)
    requires
        state.faithful(fragments),
        state.absorb(file, fragments) is Ok,
    ensures
        file is Some,
        state.absorb(file, fragments)->Ok_0.faithful(fragments),
        state.absorb(file, fragments)->Ok_0.seen.contains(file->Some_0),
        forall|p: Seq<char>|
            state.seen.contains(p) ==> state.absorb(file, fragments)->Ok_0.seen.contains(p),
{
    let package = file->Some_0;
    let next = state.absorb(file, fragments)->Ok_0;
    if !state.seen.contains(package) {
        let text = fragment_from(fragments, fragment_name(package), 0)->Some_0;
        lemma_inserted_wf(state.tree, segments(package), text);
        lemma_inserted_is_found(state.tree, segments(package), text);
        assert forall|j: int| 0 <= j < next.seen.len() implies {
            &&& fragment_from(fragments, fragment_name(#[trigger] next.seen[j]), 0) is Some
            &&& next.tree.contents_at(segments(next.seen[j])) == fragment_from(
                fragments,
                fragment_name(next.seen[j]),
                0,
            )
        } by {
            if j < state.seen.len() {
                let other = state.seen[j];
                assert(next.seen[j] == other);
                assert(state.seen.contains(other));
                if segments(other) == segments(package) {
                    lemma_segments_injective(other, package);
                }
                lemma_insert_keeps_others(state.tree, segments(package), text, segments(other));
            }
        }
        assert(next.seen[state.seen.len() as int] == package);
        assert forall|i: int, j: int| 0 <= i < j < next.seen.len() implies #[trigger] next.seen[i]
            != #[trigger] next.seen[j] by {
            assert(next.seen[i] == state.seen[i]);
            if j < state.seen.len() {
                assert(next.seen[j] == state.seen[j]);
            }
        }
        assert forall|p: Seq<char>| state.seen.contains(p) implies next.seen.contains(p) by {
            let j = choose|j: int| 0 <= j < state.seen.len() && state.seen[j] == p;
            assert(next.seen[j] == p);
        }
    }
}

/// A set that was absorbed whole leaves the state faithful, with each of its
/// packages recorded.
pub proof fn lemma_absorb_files_keeps_faith(
    state: Assembly,
    files: Seq<Option<Seq<char>>>,
    n: nat,
    fragments: Seq<(Seq<char>, Seq<char>)>,
)
    requires
        state.faithful(fragments),
        n <= files.len(),
        state.absorb_files(files, n, fragments) is Ok,
    ensures
        state.absorb_files(files, n, fragments)->Ok_0.faithful(fragments),
        forall|j: int|
            0 <= j < n ==> (#[trigger] files[j]) is Some && state.absorb_files(
                files,
                n,
                fragments,
            )->Ok_0.seen.contains(files[j]->Some_0),
        forall|p: Seq<char>|
            state.seen.contains(p) ==> state.absorb_files(files, n, fragments)->Ok_0.seen.contains(
                p,
            ),
    decreases n,
{
    if n > 0 {
        let before = state.absorb_files(files, (n - 1) as nat, fragments);
        lemma_absorb_files_keeps_faith(state, files, (n - 1) as nat, fragments);
        lemma_absorb_keeps_faith(before->Ok_0, files[n - 1], fragments);
    }
}

/// A run that absorbed its first `n` sets leaves the state faithful, with
/// each package of those sets recorded.
pub proof fn lemma_absorb_sets_keeps_faith(
    sets: Seq<Seq<Option<Seq<char>>>>,
    n: nat,
    fragments: Seq<(Seq<char>, Seq<char>)>,
)
    requires
        n <= sets.len(),
        Assembly::initial().absorb_sets(sets, n, fragments) is Ok,
    ensures
        Assembly::initial().absorb_sets(sets, n, fragments)->Ok_0.faithful(fragments),
        forall|k: int, j: int|
            0 <= k < n && 0 <= j < sets[k].len() ==> (#[trigger] sets[k][j]) is Some
                && Assembly::initial().absorb_sets(sets, n, fragments)->Ok_0.seen.contains(
                sets[k][j]->Some_0,
            ),
    decreases n,
{
    if n > 0 {
        let before = Assembly::initial().absorb_sets(sets, (n - 1) as nat, fragments);
        lemma_absorb_sets_keeps_faith(sets, (n - 1) as nat, fragments);
        lemma_absorb_files_keeps_faith(before->Ok_0, sets[n - 1], sets[n - 1].len(), fragments);
    } else {
        lemma_inserted_wf(ModuleModel::empty(), Seq::empty(), Seq::empty());
    }
}

/// The tree of a successful run is well-formed: at every level its modules
/// stand, and are emitted, in lexicographic order of their names, whatever
/// the order of the descriptor sets was.
pub proof fn lemma_assembled_is_sorted(
    transitive: Seq<Seq<Option<Seq<char>>>>,
    direct: Seq<Option<Seq<char>>>,
    fragments: Seq<(Seq<char>, Seq<char>)>,
)
    requires
        assembled(transitive, direct, fragments) is Ok,
    ensures
        assembled(transitive, direct, fragments)->Ok_0.wf(),
{
    let sets = transitive.push(direct);
    lemma_absorb_sets_keeps_faith(sets, sets.len(), fragments);
}

/// After a successful run, every package that a file descriptor of any set
/// names, however often and in whichever sets, has the text of its own
/// fragment at its dotted path in the tree.
pub proof fn lemma_every_package_has_its_fragment(
    transitive: Seq<Seq<Option<Seq<char>>>>,
    direct: Seq<Option<Seq<char>>>,
    fragments: Seq<(Seq<char>, Seq<char>)>,
    set: int,
    at: int,
)
    requires
        assembled(transitive, direct, fragments) is Ok,
        0 <= set <= transitive.len(),
        0 <= at < transitive.push(direct)[set].len(),
    ensures
        assembled(transitive, direct, fragments)->Ok_0.wf(),
        transitive.push(direct)[set][at] is Some,
        fragment_from(fragments, fragment_name(transitive.push(direct)[set][at]->Some_0), 0)
            is Some,
        assembled(transitive, direct, fragments)->Ok_0.contents_at(
            segments(transitive.push(direct)[set][at]->Some_0),
        ) == fragment_from(
            fragments,
            fragment_name(transitive.push(direct)[set][at]->Some_0),
            0,
        ),
{
    let sets = transitive.push(direct);
    let end = Assembly::initial().absorb_sets(sets, sets.len(), fragments)->Ok_0;
    lemma_absorb_sets_keeps_faith(sets, sets.len(), fragments);
    let package = sets[set][at]->Some_0;
    assert(sets[set][at] is Some && end.seen.contains(package));
    let j = choose|j: int| 0 <= j < end.seen.len() && end.seen[j] == package;
    assert(end.seen[j] == package);
}

/// A set with a file descriptor that declares no package is never absorbed:
/// the run fails, at that descriptor with `MissingPackage` or before it.
pub proof fn lemma_missing_package_is_fatal(
    state: Assembly,
    files: Seq<Option<Seq<char>>>,
    at: int,
    fragments: Seq<(Seq<char>, Seq<char>)>,
)
    requires
        0 <= at < files.len(),
        files[at] is None,
    ensures
        state.absorb_files(files, files.len(), fragments) is Err,
        state.absorb_files(files, at as nat, fragments) is Ok ==> state.absorb_files(
            files,
            files.len(),
            fragments,
        ) == Err::<Assembly, (ErrorKind, Seq<char>)>(
            (ErrorKind::MissingPackage, "No package specified"@),
        ),
{
    assert(state.absorb_files(files, (at + 1) as nat, fragments) is Err);
    lemma_error_stays(state, files, (at + 1) as nat, fragments);
}

/// A run over sets of which one holds a file descriptor without a package
/// fails: no tree, and so no output, comes of it.
pub proof fn lemma_run_without_package_fails(
    transitive: Seq<Seq<Option<Seq<char>>>>,
    direct: Seq<Option<Seq<char>>>,
    fragments: Seq<(Seq<char>, Seq<char>)>,
    set: int,
    at: int,
)
    requires
        0 <= set <= transitive.len(),
        0 <= at < transitive.push(direct)[set].len(),
        transitive.push(direct)[set][at] is None,
    ensures
        assembled(transitive, direct, fragments) is Err,
        librs_text(transitive, direct, fragments) is Err,
{
    let sets = transitive.push(direct);
    let start = Assembly::initial();
    match start.absorb_sets(sets, set as nat, fragments) {
        Ok(state) => {
            lemma_missing_package_is_fatal(state, sets[set], at, fragments);
        },
        Err(_) => {},
    }
    assert(start.absorb_sets(sets, (set + 1) as nat, fragments) is Err);
    lemma_set_error_stays(start, sets, (set + 1) as nat, fragments);
}

/// Builds the module tree of a run: for each file descriptor of the
/// transitive sets, in the order given, and then of the direct set, the
/// package's fragment is attached at the package's dotted path, unless the
/// package was met before.
pub fn assemble(
    transitive: &Vec<DescriptorSet>,
    direct: &DescriptorSet,
    fragments: &Vec<Fragment>,
) -> (r: Result<RustModule, TranspileError>)
    ensures
        match assembled(set_views(transitive@), direct@, fragment_views(fragments@)) {
            Ok(tree) => r is Ok && r->Ok_0@ == tree && r->Ok_0.wf(),
            Err(e) => r is Err && r->Err_0@ == e,
        },
{
    let mut tree: RustModule = RustModule::new();
    let mut seen: Vec<String> = Vec::new();
    let ghost sets = set_views(transitive@).push(direct@);
    let ghost frags = fragment_views(fragments@);
    assert(views(seen@) =~= Seq::<Seq<char>>::empty());
    let mut i: usize = 0;
    while i < transitive.len()
        invariant
            i <= transitive@.len(),
            sets == set_views(transitive@).push(direct@),
            frags == fragment_views(fragments@),
            tree.wf(),
            Assembly::initial().absorb_sets(sets, i as nat, frags) == Ok::<
                Assembly,
                (ErrorKind, Seq<char>),
            >(Assembly { tree: tree@, seen: views(seen@) }),
        decreases transitive@.len() - i,
    {
        assert(sets[i as int] == transitive@[i as int]@);
        match absorb_set(&mut tree, &mut seen, &transitive[i], fragments) {
            Ok(()) => {},
            Err(e) => {
                proof {
                    lemma_set_error_stays(Assembly::initial(), sets, (i + 1) as nat, frags);
                }
                return Err(e);
            },
        }
        i += 1;
    }
    assert(sets[transitive@.len() as int] == direct@);
    match absorb_set(&mut tree, &mut seen, direct, fragments) {
        Ok(()) => Ok(tree),
        Err(e) => Err(e),
    }
}

/// The decoded form of each of the given byte strings, if all of them
/// decode.
pub open spec fn all_decoded(buffers: Seq<Vec<u8>>) -> Option<Seq<Seq<Option<Seq<char>>>>> {
    if forall|i: int|
        0 <= i < buffers.len() ==> (#[trigger] decoded_packages(buffers[i]@)) is Some {
        Some(Seq::new(buffers.len(), |i: int| decoded_packages(buffers[i]@)->Some_0))
    } else {
        None
    }
}

/// The text of the generated library. The descriptor sets are decoded, the
/// direct one first; then the tree is assembled and serialized. Fails with
/// `Decode` exactly when some descriptor set does not decode, and otherwise
/// as the assembly does.
pub fn generate_librs(
    direct_descriptor_set: &Vec<u8>,
    transitive_descriptor_sets: &Vec<Vec<u8>>,
    fragments: &Vec<Fragment>,
) -> (r: Result<String, TranspileError>)
    ensures
        match (
            decoded_packages(direct_descriptor_set@),
            all_decoded(transitive_descriptor_sets@),
        ) {
            (Some(direct), Some(transitive)) => match librs_text(
                transitive,
                direct,
                fragment_views(fragments@),
            ) {
                Ok(text) => r is Ok && r->Ok_0@ == text,
                Err(e) => r is Err && r->Err_0@ == e,
            },
            _ => r is Err && r->Err_0.kind == ErrorKind::Decode,
        },
{
    let direct: DescriptorSet = match parse_descriptor_set(direct_descriptor_set) {
        Ok(set) => set,
        Err(e) => { return Err(e); },
    };
    let mut transitive: Vec<DescriptorSet> = Vec::new();
    let mut i: usize = 0;
    while i < transitive_descriptor_sets.len()
        invariant
            i <= transitive_descriptor_sets@.len(),
            transitive@.len() == i,
            forall|j: int|
                0 <= j < i ==> #[trigger] decoded_packages(transitive_descriptor_sets@[j]@)
                    == Some(transitive@[j]@),
        decreases transitive_descriptor_sets@.len() - i,
    {
        match parse_descriptor_set(&transitive_descriptor_sets[i]) {
            Ok(set) => {
                transitive.push(set);
            },
            Err(e) => { return Err(e); },
        }
        i += 1;
    }
    assert(all_decoded(transitive_descriptor_sets@) == Some(set_views(transitive@))) by {
        let buffers = transitive_descriptor_sets@;
        assert forall|j: int| 0 <= j < buffers.len() implies #[trigger] decoded_packages(
            buffers[j]@,
        ) == Some(set_views(transitive@)[j]) by {
            assert(decoded_packages(buffers[j]@) == Some(transitive@[j]@));
        }
        assert(all_decoded(buffers)->Some_0 =~= set_views(transitive@));
    }
    match assemble(&transitive, &direct, fragments) {
        Ok(tree) => tree.serialize(),
        Err(e) => Err(e),
    }
}

/// The text of the build manifest for a library of the given name and
/// edition.
pub open spec fn manifest_text(name: Seq<char>, edition: Seq<char>) -> Seq<char> {
    "\n[package]\nname = \""@ + name + "\"\nversion = \"1.0.0\"\nedition = \""@ + edition
        + "\"\n\n[lib]\npath = \"lib.rs\"\n\n[dependencies]\ntonic = \"0\"\nprost = \"0\"\n    "@
}

/// Renders the build manifest from the name and the edition of the options.
pub fn generate_cargo_workspace(opt: &Opt) -> (r: String)
    ensures
        r@ == manifest_text(opt.name@, opt.edition@),
{
    let mut out: String = String::from_str("\n[package]\nname = \"");
    out.append(opt.name.as_str());
    out.append("\"\nversion = \"1.0.0\"\nedition = \"");
    out.append(opt.edition.as_str());
    out.append("\"\n\n[lib]\npath = \"lib.rs\"\n\n[dependencies]\ntonic = \"0\"\nprost = \"0\"\n    ");
    out
}

/// The arguments that the formatter is started with: the edition, then the
/// file.
pub fn rustfmt_arguments(rust_file: &str, edition: &str) -> (r: Vec<String>)
    ensures
        r@.len() == 2,
        r@[0]@ == "--edition="@ + edition@,
        r@[1]@ == rust_file@,
{
    let mut flag: String = String::from_str("--edition=");
    flag.append(edition);
    let mut arguments: Vec<String> = Vec::new();
    arguments.push(flag);
    arguments.push(String::from_str(rust_file));
    arguments
}

/// The text of the error for a formatter that reported failure.
pub open spec fn rustfmt_failure_text(stdout: Seq<char>, stderr: Seq<char>) -> Seq<char> {
    "Failed to run RUSTFMT:\nstdout:\n"@ + stdout + "\nstderr:\n"@ + stderr
}

/// Judges a finished formatter run: a failure is an error that carries what
/// the formatter printed.
pub fn rustfmt_outcome(success: bool, stdout: &str, stderr: &str) -> (r: Result<
    (),
    TranspileError,
>)
    ensures
        success ==> r is Ok,
        !success ==> r is Err && r->Err_0@ == (
            ErrorKind::FormatterFailure,
            rustfmt_failure_text(stdout@, stderr@),
        ),
{
    if success {
        return Ok(());
    }
    let mut detail: String = String::from_str("Failed to run RUSTFMT:\nstdout:\n");
    detail.append(stdout);
    detail.append("\nstderr:\n");
    detail.append(stderr);
    Err(TranspileError { kind: ErrorKind::FormatterFailure, detail })
}

} // verus!
