//! The corpus cache: per-file mappings keyed by path, the canonical-form
//! alias collapse that keeps one entry per underlying file, bulk build from
//! a walked listing, and incremental replace and remove.
//!
//! Each entry records the canonical form of its path at the moment it is
//! created; the collapse compares recorded forms, so an alias inserted under
//! a different spelling of the same file is removed before a new entry goes
//! in.

use crate::mapping::FileMapping;
use crate::policy;
use vstd::prelude::*;

verus! {

/// The model of one cache entry: the path it was inserted under, the
/// canonical form recorded at insertion, and the mapped bytes.
#[verifier::ext_equal]
pub struct EntryModel {
    pub path: Seq<char>,
    pub canon: Seq<char>,
    pub bytes: Seq<u8>,
}

/// The model of a whole cache: its root and its entries in insertion order.
#[verifier::ext_equal]
pub struct CacheModel {
    pub root: Seq<char>,
    pub entries: Seq<EntryModel>,
}

/// One cached file: a path, its recorded canonical form, and the mapping.
pub struct CacheEntry {
    pub path: String,
    pub canon: String,
    pub mapping: FileMapping,
}

impl View for CacheEntry {
    type V = EntryModel;

    open spec fn view(&self) -> EntryModel {
        EntryModel { path: self.path@, canon: self.canon@, bytes: self.mapping@ }
    }
}

/// The models of a sequence of entries.
pub open spec fn models(s: Seq<CacheEntry>) -> Seq<EntryModel> {
    s.map_values(|e: CacheEntry| e@)
}

/// Some entry records the canonical form `canon`.
pub open spec fn has_canon(s: Seq<EntryModel>, canon: Seq<char>) -> bool
    decreases s.len(),
{
    s.len() > 0 && (s.first().canon == canon || has_canon(s.drop_first(), canon))
}

/// No two entries share a canonical form: each entry's recorded form is
/// absent from the entries after it.
pub open spec fn entries_wf(s: Seq<EntryModel>) -> bool
    decreases s.len(),
{
    s.len() == 0 || (!has_canon(s.drop_first(), s.first().canon) && entries_wf(s.drop_first()))
}

/// An entry at index `i` makes its recorded form present.
pub proof fn lemma_canon_at(s: Seq<EntryModel>, i: int)
    requires
        0 <= i < s.len(),
    ensures
        has_canon(s, s[i].canon),
    decreases s.len(),
{
    if i > 0 {
        lemma_canon_at(s.drop_first(), i - 1);
    }
}

/// An absent form is recorded by no entry.
pub proof fn lemma_canon_absent(s: Seq<EntryModel>, canon: Seq<char>, i: int)
    requires
        !has_canon(s, canon),
        0 <= i < s.len(),
    ensures
        s[i].canon != canon,
    decreases s.len(),
{
    if i > 0 {
        lemma_canon_absent(s.drop_first(), canon, i - 1);
    }
}

/// Appending an entry adds exactly its recorded form.
pub proof fn lemma_has_canon_push(s: Seq<EntryModel>, e: EntryModel, canon: Seq<char>)
    ensures
        has_canon(s.push(e), canon) == (has_canon(s, canon) || e.canon == canon),
    decreases s.len(),
{
    reveal_with_fuel(has_canon, 2);
    let t = s.push(e);
    if s.len() == 0 {
        assert(t.first() == e);
        assert(t.drop_first() =~= Seq::<EntryModel>::empty());
        assert(!has_canon(t.drop_first(), canon));
    } else {
        assert(t.first() == s.first());
        assert(t.drop_first() =~= s.drop_first().push(e));
        lemma_has_canon_push(s.drop_first(), e, canon);
        assert(has_canon(t.drop_first(), canon) == (has_canon(s.drop_first(), canon) || e.canon
            == canon));
    }
}

/// A form recorded by no entry, index by index, is absent.
proof fn lemma_canon_from_indices(s: Seq<EntryModel>, canon: Seq<char>)
    requires
        forall|j: int| 0 <= j < s.len() ==> (#[trigger] s[j]).canon != canon,
    ensures
        !has_canon(s, canon),
    decreases s.len(),
{
    if s.len() > 0 {
        assert forall|j: int| 0 <= j < s.drop_first().len() implies (#[trigger] s.drop_first()[j]).canon != canon by {
            assert(s.drop_first()[j] == s[j + 1]);
        }
        lemma_canon_from_indices(s.drop_first(), canon);
    }
}

/// `s` with every entry recording `canon` removed, in order.
pub open spec fn without_canon(s: Seq<EntryModel>, canon: Seq<char>) -> Seq<EntryModel>
    decreases s.len(),
{
    if s.len() == 0 {
        s
    } else if s.first().canon == canon {
        without_canon(s.drop_first(), canon)
    } else {
        seq![s.first()] + without_canon(s.drop_first(), canon)
    }
}

/// Whatever form the collapse leaves behind was present before it.
pub proof fn lemma_without_canon_has(s: Seq<EntryModel>, canon: Seq<char>, c: Seq<char>)
    requires
        has_canon(without_canon(s, canon), c),
    ensures
        has_canon(s, c),
    decreases s.len(),
{
    if s.len() > 0 {
        let d = s.drop_first();
        let wd = without_canon(d, canon);
        if s.first().canon == canon {
            lemma_without_canon_has(d, canon, c);
        } else {
            let w = seq![s.first()] + wd;
            assert(w.first() == s.first());
            assert(w.drop_first() =~= wd);
            if s.first().canon != c {
                lemma_without_canon_has(d, canon, c);
            }
        }
    }
}

/// The collapse removes every entry recording `canon`, keeps
/// well-formedness, and never grows the sequence.
pub proof fn lemma_without_canon(s: Seq<EntryModel>, canon: Seq<char>)
    ensures
        !has_canon(without_canon(s, canon), canon),
        entries_wf(s) ==> entries_wf(without_canon(s, canon)),
        !has_canon(s, canon) ==> without_canon(s, canon) =~= s,
        without_canon(s, canon).len() <= s.len(),
    decreases s.len(),
{
    if s.len() > 0 {
        let e = s.first();
        let d = s.drop_first();
        let wd = without_canon(d, canon);
        lemma_without_canon(d, canon);
        if e.canon == canon {
            assert(has_canon(s, canon));
        } else {
            let w = seq![e] + wd;
            assert(w.first() == e);
            assert(w.drop_first() =~= wd);
            if entries_wf(s) {
                if has_canon(wd, e.canon) {
                    lemma_without_canon_has(d, canon, e.canon);
                }
                assert(!has_canon(wd, e.canon));
            }
            if !has_canon(s, canon) {
                assert(w =~= seq![e] + d);
                assert(w =~= s);
            }
        }
    }
}

/// When some entry records `canon`, a well-formed sequence loses exactly
/// one entry in the collapse.
pub proof fn lemma_without_canon_len(s: Seq<EntryModel>, canon: Seq<char>)
    requires
        entries_wf(s),
        has_canon(s, canon),
    ensures
        without_canon(s, canon).len() == s.len() - 1,
    decreases s.len(),
{
    let e = s.first();
    let d = s.drop_first();
    if e.canon == canon {
        lemma_without_canon(d, canon);
    } else {
        lemma_without_canon_len(d, canon);
    }
}

/// Appending an entry whose canonical form is fresh keeps well-formedness.
pub proof fn lemma_wf_push(s: Seq<EntryModel>, e: EntryModel)
    requires
        entries_wf(s),
        !has_canon(s, e.canon),
    ensures
        entries_wf(s.push(e)),
    decreases s.len(),
{
    reveal_with_fuel(entries_wf, 2);
    reveal_with_fuel(has_canon, 2);
    let t = s.push(e);
    if s.len() == 0 {
        assert(t.drop_first() =~= Seq::<EntryModel>::empty());
        assert(entries_wf(t.drop_first()));
        assert(!has_canon(t.drop_first(), t.first().canon));
    } else {
        assert(t.drop_first() =~= s.drop_first().push(e));
        assert(t.first() == s.first());
        lemma_wf_push(s.drop_first(), e);
        assert(entries_wf(t.drop_first()));
        lemma_has_canon_push(s.drop_first(), e, s.first().canon);
        assert(!has_canon(t.drop_first(), t.first().canon));
    }
}

/// What the incremental path learned of the file at replace time: gone, not
/// openable, or present with its observed size and (when mapping succeeded)
/// its mapping.
pub enum FileProbe {
    Absent,
    OpenFailed,
    Present { size: u64, mapping: Option<FileMapping> },
}

/// The model of a probe.
pub enum ProbeModel {
    Absent,
    OpenFailed,
    Present { size: u64, bytes: Option<Seq<u8>> },
}

impl View for FileProbe {
    type V = ProbeModel;

    open spec fn view(&self) -> ProbeModel {
        match self {
            FileProbe::Absent => ProbeModel::Absent,
            FileProbe::OpenFailed => ProbeModel::OpenFailed,
            FileProbe::Present { size, mapping } => ProbeModel::Present {
                size: *size,
                bytes: match mapping {
                    Some(m) => Some(m@),
                    None => None,
                },
            },
        }
    }
}

/// Why a replace failed: the file could not be opened, or could not be
/// mapped.
#[derive(PartialEq, Eq, Structural, Clone, Copy, Debug)]
pub enum ReplaceError {
    CannotOpen,
    CannotMap,
}

/// The cache after a replace of `path`, resolved to `canon`, with probe
/// outcome `probe`: a vanished file and an excluded extension leave the
/// cache alone; otherwise every alias of `canon` is collapsed, and an
/// admissible, successfully mapped file is inserted under `path`.
pub open spec fn reload_spec(
    c: CacheModel,
    path: Seq<char>,
    canon: Seq<char>,
    probe: ProbeModel,
) -> CacheModel {
    if probe is Absent {
        c
    } else if policy::path_excluded(path) {
        c
    } else {
        let removed = without_canon(c.entries, canon);
        match probe {
            ProbeModel::Present { size, bytes } => {
                if policy::size_ok(size) && bytes is Some {
                    CacheModel {
                        root: c.root,
                        entries: removed.push(
                            EntryModel { path, canon, bytes: bytes->0 },
                        ),
                    }
                } else {
                    CacheModel { root: c.root, entries: removed }
                }
            },
            _ => CacheModel { root: c.root, entries: removed },
        }
    }
}

/// Whether a replace reports success: failures to open or map an admissible
/// file are errors; everything else is a benign skip or an insertion.
pub open spec fn reload_ok_spec(path: Seq<char>, probe: ProbeModel) -> bool {
    match probe {
        ProbeModel::Absent => true,
        ProbeModel::OpenFailed => policy::path_excluded(path),
        ProbeModel::Present { size, bytes } => policy::path_excluded(path) || !policy::size_ok(
            size,
        ) || bytes is Some,
    }
}

/// Memory-mapped file cache for a single codebase.
pub struct MmapCache {
    root: String,
    entries: Vec<CacheEntry>,
}

impl View for MmapCache {
    type V = CacheModel;

    closed spec fn view(&self) -> CacheModel {
        CacheModel { root: self.root@, entries: models(self.entries@) }
    }
}

/// One file of a walked listing handed to the bulk build: its path, the
/// canonical form resolved for it, its observed size, and its mapping when
/// mapping succeeded.
pub struct BuildFile {
    pub path: String,
    pub canon: String,
    pub size: u64,
    pub mapping: Option<FileMapping>,
}

/// The model of a listed file.
#[verifier::ext_equal]
pub struct BuildFileModel {
    pub path: Seq<char>,
    pub canon: Seq<char>,
    pub size: u64,
    pub bytes: Option<Seq<u8>>,
}

impl View for BuildFile {
    type V = BuildFileModel;

    open spec fn view(&self) -> BuildFileModel {
        BuildFileModel {
            path: self.path@,
            canon: self.canon@,
            size: self.size,
            bytes: match &self.mapping {
                Some(m) => Some(m@),
                None => None,
            },
        }
    }
}

/// The models of a listing.
pub open spec fn listing_models(s: Seq<BuildFile>) -> Seq<BuildFileModel> {
    s.map_values(|f: BuildFile| f@)
}

/// The entries a bulk build accumulates over `files`, starting from `acc`:
/// each admitted, successfully mapped file goes in unless an earlier entry
/// already records its canonical form.
pub open spec fn build_entries(files: Seq<BuildFileModel>, acc: Seq<EntryModel>) -> Seq<
    EntryModel,
>
    decreases files.len(),
{
    if files.len() == 0 {
        acc
    } else {
        let f = files.first();
        let acc2 = if policy::admit_spec(f.path, f.size) && f.bytes is Some && !has_canon(
            acc,
            f.canon,
        ) {
            acc.push(EntryModel { path: f.path, canon: f.canon, bytes: f.bytes->0 })
        } else {
            acc
        };
        build_entries(files.drop_first(), acc2)
    }
}

/// How many files of a listing pass the ingestion filter and were mapped.
pub open spec fn count_admitted(files: Seq<BuildFileModel>) -> int
    decreases files.len(),
{
    if files.len() == 0 {
        0int
    } else {
        (if policy::admit_spec(files.first().path, files.first().size) && files.first().bytes
            is Some {
            1int
        } else {
            0int
        }) + count_admitted(files.drop_first())
    }
}

/// The canonical forms of a listing are pairwise distinct.
pub open spec fn listing_distinct(files: Seq<BuildFileModel>) -> bool {
    forall|i: int, j: int|
        #![trigger files[i], files[j]]
        0 <= i < j < files.len() ==> files[i].canon != files[j].canon
}

/// No listed file's canonical form is already accumulated.
pub open spec fn listing_fresh(files: Seq<BuildFileModel>, acc: Seq<EntryModel>) -> bool {
    forall|i: int| 0 <= i < files.len() ==> !has_canon(acc, (#[trigger] files[i]).canon)
}

/// Over a listing with pairwise-distinct canonical forms, the build adds one
/// entry per admitted, mapped file.
pub proof fn lemma_build_count(files: Seq<BuildFileModel>, acc: Seq<EntryModel>)
    requires
        listing_distinct(files),
        listing_fresh(files, acc),
    ensures
        build_entries(files, acc).len() == acc.len() + count_admitted(files),
    decreases files.len(),
{
    if files.len() > 0 {
        let f = files.first();
        let rest = files.drop_first();
        assert forall|i: int| 0 <= i < rest.len() implies rest[i] == files[i + 1] by {}
        if policy::admit_spec(f.path, f.size) && f.bytes is Some && !has_canon(acc, f.canon) {
            let e = EntryModel { path: f.path, canon: f.canon, bytes: f.bytes->0 };
            let acc2 = acc.push(e);
            assert forall|i: int| 0 <= i < rest.len() implies !has_canon(
                acc2,
                (#[trigger] rest[i]).canon,
            ) by {
                lemma_has_canon_push(acc, e, rest[i].canon);
                assert(files[i + 1] == rest[i]);
                assert(files[0].canon != files[i + 1].canon);
                assert(!has_canon(acc, files[i + 1].canon));
            }
            lemma_build_count(rest, acc2);
        } else {
            assert(policy::admit_spec(f.path, f.size) && f.bytes is Some ==> has_canon(
                acc,
                f.canon,
            ));
            lemma_build_count(rest, acc);
        }
    }
}

/// For a listing with pairwise-distinct canonical forms, the built cache
/// holds exactly the admitted, successfully mapped files; a search on it
/// therefore reports `files_searched` equal to that count.
pub proof fn lemma_build_files_searched(files: Seq<BuildFileModel>)
    requires
        listing_distinct(files),
    ensures
        build_entries(files, Seq::<EntryModel>::empty()).len() == count_admitted(files),
{
    lemma_build_count(files, Seq::<EntryModel>::empty());
}

/// In a well-formed sequence, entries at distinct indices record distinct
/// canonical forms.
proof fn lemma_wf_distinct(s: Seq<EntryModel>, i: int, j: int)
    requires
        entries_wf(s),
        0 <= i < j < s.len(),
    ensures
        s[i].canon != s[j].canon,
    decreases s.len(),
{
    if i == 0 {
        lemma_canon_absent(s.drop_first(), s.first().canon, j - 1);
    } else {
        lemma_wf_distinct(s.drop_first(), i - 1, j - 1);
    }
}

/// No two entries of a well-formed cache record the same canonical form.
pub proof fn lemma_canonical_unique(c: CacheModel, i: int, j: int)
    requires
        entries_wf(c.entries),
        0 <= i < c.entries.len(),
        0 <= j < c.entries.len(),
        i != j,
    ensures
        c.entries[i].canon != c.entries[j].canon,
{
    if i < j {
        lemma_wf_distinct(c.entries, i, j);
    } else {
        lemma_wf_distinct(c.entries, j, i);
    }
}

/// A replace of a path whose canonical form is already cached and whose
/// extension is not excluded keeps the cache size when the new file is
/// admissible and mapped, and shrinks it by one when the file is rejected
/// for size, cannot be opened, or cannot be mapped.
pub proof fn lemma_replace_size(
    c: CacheModel,
    path: Seq<char>,
    canon: Seq<char>,
    probe: ProbeModel,
)
    requires
        entries_wf(c.entries),
        has_canon(c.entries, canon),
        !policy::path_excluded(path),
    ensures
        (probe matches ProbeModel::Present { size, bytes } && policy::size_ok(size) && bytes
            is Some) ==> reload_spec(c, path, canon, probe).entries.len() == c.entries.len(),
        (probe matches ProbeModel::Present { size, bytes } && !(policy::size_ok(size) && bytes
            is Some)) ==> reload_spec(c, path, canon, probe).entries.len() == c.entries.len() - 1,
        probe is OpenFailed ==> reload_spec(c, path, canon, probe).entries.len() == c.entries.len()
            - 1,
{
    lemma_without_canon_len(c.entries, canon);
}

impl MmapCache {
    /// Relies on std's `Path::canonicalize`: resolve `p` to its canonical
    /// form, falling back to `p` itself when resolution fails. The result
    /// depends on the state of the filesystem.
    #[verifier::external_body]
    pub fn canonical_form(p: &str) -> (r: String) {
        match std::path::Path::new(p).canonicalize() {
            Ok(c) => c.to_string_lossy().into_owned(),
            Err(_) => p.to_string(),
        }
    }

    /// Create a cache by keeping, from a walked listing, every file the
    /// ingestion policy admits and the walk could map, first occurrence of
    /// each canonical form winning.
    pub fn new(root: String, files: Vec<BuildFile>) -> (c: MmapCache)
        ensures
            c@.root == root@,
            c@.entries == build_entries(listing_models(files@), Seq::<EntryModel>::empty()),
            entries_wf(c@.entries),
    {
        let ghost orig: Seq<BuildFile> = files@;
        let mut files = files;
        let mut entries: Vec<CacheEntry> = Vec::new();
        proof {
            assert(models(entries@) =~= Seq::<EntryModel>::empty());
        }
        while files.len() > 0
            invariant
                entries_wf(models(entries@)),
                build_entries(listing_models(files@), models(entries@)) == build_entries(
                    listing_models(orig),
                    Seq::<EntryModel>::empty(),
                ),
            decreases files.len(),
        {
            let ghost pre_files = files@;
            let ghost pre_entries = models(entries@);
            let f = files.remove(0);
            match f.mapping {
                Some(mapping) => {
                    if crate::policy::admits(f.path.as_str(), f.size) && !Self::contains_canon(
                        &entries,
                        &f.canon,
                    ) {
                        let entry = CacheEntry { path: f.path, canon: f.canon, mapping };
                        proof {
                            lemma_wf_push(pre_entries, entry@);
                            assert(models(entries@.push(entry)) =~= pre_entries.push(entry@));
                        }
                        entries.push(entry);
                    }
                },
                None => {},
            }
            proof {
                assert(listing_models(pre_files).drop_first() =~= listing_models(files@));
                assert(listing_models(pre_files).first() == pre_files[0]@);
            }
        }
        proof {
            assert(listing_models(files@).len() == 0);
        }
        MmapCache { root, entries }
    }

    /// The number of cached files.
    pub fn len(&self) -> (n: usize)
        ensures
            n == self@.entries.len(),
    {
        self.entries.len()
    }

    /// The root the cache was built for.
    pub fn root(&self) -> (r: &String)
        ensures
            r@ == self@.root,
    {
        &self.root
    }

    /// Whether some entry records the canonical form `canon`.
    fn contains_canon(entries: &Vec<CacheEntry>, canon: &String) -> (r: bool)
        ensures
            r == has_canon(models(entries@), canon@),
    {
        let mut i: usize = 0;
        while i < entries.len()
            invariant
                0 <= i <= entries@.len(),
                forall|j: int| 0 <= j < i ==> models(entries@)[j].canon != canon@,
            decreases entries@.len() - i,
        {
            if entries[i].canon == *canon {
                proof {
                    assert(models(entries@)[i as int].canon == canon@);
                    lemma_canon_at(models(entries@), i as int);
                }
                return true;
            }
            i = i + 1;
        }
        proof {
            lemma_canon_from_indices(models(entries@), canon@);
        }
        false
    }

    /// Remove every entry whose recorded canonical form equals `canon`.
    pub fn remove_resolved(&mut self, canon: &String)
        ensures
            final(self)@.root == old(self)@.root,
            final(self)@.entries == without_canon(old(self)@.entries, canon@),
    {
        let ghost morig: Seq<EntryModel> = models(self.entries@);
        let mut i: usize = self.entries.len();
        proof {
            assert(morig.skip(i as int) =~= Seq::<EntryModel>::empty());
            assert(models(self.entries@) =~= morig.take(i as int) + without_canon(
                morig.skip(i as int),
                canon@,
            ));
        }
        while i > 0
            invariant
                0 <= i <= morig.len(),
                self.root@ == old(self)@.root,
                models(self.entries@) == morig.take(i as int) + without_canon(
                    morig.skip(i as int),
                    canon@,
                ),
            decreases i,
        {
            let ghost pre = models(self.entries@);
            i = i - 1;
            proof {
                assert(pre.len() == self.entries@.len());
                assert(morig.take(i + 1).len() == i + 1);
                assert(pre[i as int] == morig[i as int]);
                assert(morig.skip(i as int).first() == morig[i as int]);
                assert(morig.skip(i as int).drop_first() =~= morig.skip(i + 1));
            }
            if self.entries[i].canon == *canon {
                let removed = self.entries.remove(i);
                proof {
                    assert(models(self.entries@) =~= pre.remove(i as int));
                    assert(pre.remove(i as int) =~= morig.take(i as int) + without_canon(
                        morig.skip(i + 1),
                        canon@,
                    ));
                }
            } else {
                proof {
                    assert(morig.take(i + 1) =~= morig.take(i as int) + seq![morig[i as int]]);
                    assert(without_canon(morig.skip(i as int), canon@) =~= seq![morig[i as int]]
                        + without_canon(morig.skip(i + 1), canon@));
                    assert(models(self.entries@) =~= morig.take(i as int) + without_canon(
                        morig.skip(i as int),
                        canon@,
                    ));
                }
            }
        }
        proof {
            assert(morig.skip(0) =~= morig);
            assert(morig.take(0) =~= Seq::<EntryModel>::empty());
            assert(models(self.entries@) =~= without_canon(morig, canon@));
        }
    }

    /// Remove a file from the cache: resolve `path` and collapse every
    /// entry recording the resolved form.
    pub fn remove_file(&mut self, path: &String)
        ensures
            final(self)@.root == old(self)@.root,
            exists|c: Seq<char>|
                final(self)@.entries == without_canon(old(self)@.entries, c),
    {
        let canon = Self::canonical_form(path.as_str());
        self.remove_resolved(&canon);
    }

    /// Add or reload a single file, its canonical form already resolved.
    ///
    /// A vanished file and an excluded extension are benign skips. Otherwise
    /// every alias of `canon` is collapsed; a file passing the size bounds
    /// whose mapping succeeded is then inserted under `path`, and a failure
    /// to open or map is reported.
    pub fn reload_resolved(&mut self, path: &String, canon: &String, probe: FileProbe) -> (r:
        Result<(), ReplaceError>)
        requires
            entries_wf(old(self)@.entries),
        ensures
            entries_wf(final(self)@.entries),
            final(self)@ == reload_spec(old(self)@, path@, canon@, probe@),
            r is Ok <==> reload_ok_spec(path@, probe@),
            r == Err::<(), ReplaceError>(ReplaceError::CannotOpen) <==> (probe is OpenFailed
                && !policy::path_excluded(path@)),
            r == Err::<(), ReplaceError>(ReplaceError::CannotMap) <==> (probe matches
                FileProbe::Present { size, mapping } && !policy::path_excluded(path@)
                && policy::size_ok(size) && mapping is None),
    {
        let ghost pre = self@;
        match probe {
            FileProbe::Absent => Ok(()),
            FileProbe::OpenFailed => {
                if policy::is_excluded_path(path.as_str()) {
                    Ok(())
                } else {
                    self.remove_resolved(canon);
                    proof {
                        lemma_without_canon(pre.entries, canon@);
                    }
                    Err(ReplaceError::CannotOpen)
                }
            },
            FileProbe::Present { size, mapping } => {
                if policy::is_excluded_path(path.as_str()) {
                    return Ok(());
                }
                self.remove_resolved(canon);
                proof {
                    lemma_without_canon(pre.entries, canon@);
                }
                if size == 0 || size > policy::MAX_FILE_SIZE {
                    return Ok(());
                }
                match mapping {
                    None => Err(ReplaceError::CannotMap),
                    Some(m) => {
                        let entry = CacheEntry {
                            path: path.clone(),
                            canon: canon.clone(),
                            mapping: m,
                        };
                        let ghost collapsed = models(self.entries@);
                        proof {
                            lemma_wf_push(collapsed, entry@);
                            assert(models(self.entries@.push(entry)) =~= collapsed.push(entry@));
                        }
                        self.entries.push(entry);
                        Ok(())
                    },
                }
            },
        }
    }

    /// Add or reload a single file: resolve `path` best-effort and apply
    /// the replace under the resolved form.
    pub fn reload_file(&mut self, path: &String, probe: FileProbe) -> (r: Result<
        (),
        ReplaceError,
    >)
        requires
            entries_wf(old(self)@.entries),
        ensures
            entries_wf(final(self)@.entries),
            exists|c: Seq<char>|
                final(self)@ == reload_spec(old(self)@, path@, c, probe@),
            r is Ok <==> reload_ok_spec(path@, probe@),
    {
        let canon = Self::canonical_form(path.as_str());
        self.reload_resolved(path, &canon, probe)
    }
}


/// One search match: the path presented relative to the root, the one-based
/// line number, and the matched line with trailing whitespace stripped.
#[derive(Debug)]
pub struct SearchMatch {
    pub path: String,
    pub line_number: u64,
    pub line: String,
}

/// The model of a match.
#[verifier::ext_equal]
pub struct MatchModel {
    pub path: Seq<char>,
    pub line_number: u64,
    pub line: Seq<char>,
}

impl View for SearchMatch {
    type V = MatchModel;

    open spec fn view(&self) -> MatchModel {
        MatchModel { path: self.path@, line_number: self.line_number, line: self.line@ }
    }
}

/// The models of a sequence of matches.
pub open spec fn match_models(v: Seq<SearchMatch>) -> Seq<MatchModel> {
    v.map_values(|m: SearchMatch| m@)
}

/// The matches one entry contributes: its capped per-file hits, each under
/// the entry's presentation path.
pub open spec fn file_matches(
    e: EntryModel,
    root: Seq<char>,
    pattern: Seq<char>,
    case_sensitive: bool,
    max: int,
) -> Seq<MatchModel> {
    crate::scan::capped_hits(pattern, case_sensitive, e.bytes, max).map_values(
        |h: (u64, Seq<char>)| MatchModel {
            path: crate::paths::rel_path_spec(e.path, root),
            line_number: h.0,
            line: h.1,
        },
    )
}

/// Each contributed match carries the entry's presentation path and one
/// capped hit.
pub proof fn lemma_file_matches_index(
    e: EntryModel,
    root: Seq<char>,
    pattern: Seq<char>,
    case_sensitive: bool,
    max: int,
    j: int,
)
    requires
        0 <= j < crate::scan::capped_hits(pattern, case_sensitive, e.bytes, max).len(),
    ensures
        file_matches(e, root, pattern, case_sensitive, max).len() == crate::scan::capped_hits(
            pattern,
            case_sensitive,
            e.bytes,
            max,
        ).len(),
        file_matches(e, root, pattern, case_sensitive, max)[j] == (MatchModel {
            path: crate::paths::rel_path_spec(e.path, root),
            line_number: crate::scan::capped_hits(pattern, case_sensitive, e.bytes, max)[j].0,
            line: crate::scan::capped_hits(pattern, case_sensitive, e.bytes, max)[j].1,
        }),
{
}

/// All matches of a search: the per-file buffers concatenated in entry
/// order.
pub open spec fn corpus_matches(
    entries: Seq<EntryModel>,
    root: Seq<char>,
    pattern: Seq<char>,
    case_sensitive: bool,
    max: int,
) -> Seq<MatchModel>
    decreases entries.len(),
{
    if entries.len() == 0 {
        Seq::<MatchModel>::empty()
    } else {
        file_matches(entries.first(), root, pattern, case_sensitive, max) + corpus_matches(
            entries.drop_first(),
            root,
            pattern,
            case_sensitive,
            max,
        )
    }
}

/// The reported total: the length of the concatenation of the capped
/// per-file buffers.
pub open spec fn search_total(
    c: CacheModel,
    pattern: Seq<char>,
    case_sensitive: bool,
    max: int,
) -> int {
    corpus_matches(c.entries, c.root, pattern, case_sensitive, max).len() as int
}

/// The sum over all entries of the per-file hit counts, each capped at
/// `max`.
pub open spec fn sum_capped(
    entries: Seq<EntryModel>,
    pattern: Seq<char>,
    case_sensitive: bool,
    max: int,
) -> int
    decreases entries.len(),
{
    if entries.len() == 0 {
        0int
    } else {
        (if max <= crate::scan::grep_lines(pattern, case_sensitive, entries.first().bytes).len() {
            max
        } else {
            crate::scan::grep_lines(pattern, case_sensitive, entries.first().bytes).len() as int
        }) + sum_capped(entries.drop_first(), pattern, case_sensitive, max)
    }
}

/// The ceiling semantics: the reported total equals the sum of the per-file
/// hit counts after the per-file cap, not a true global count.
pub proof fn lemma_total_is_capped_sum(
    entries: Seq<EntryModel>,
    root: Seq<char>,
    pattern: Seq<char>,
    case_sensitive: bool,
    max: int,
)
    requires
        max >= 0,
    ensures
        corpus_matches(entries, root, pattern, case_sensitive, max).len() == sum_capped(
            entries,
            pattern,
            case_sensitive,
            max,
        ),
    decreases entries.len(),
{
    if entries.len() > 0 {
        lemma_total_is_capped_sum(entries.drop_first(), root, pattern, case_sensitive, max);
    }
}

/// The total a search reports is a function of the cache model and the
/// request alone: two searches of equal caches with equal requests report
/// equal totals, whatever the parallel schedule did.
pub proof fn lemma_search_deterministic(
    c1: CacheModel,
    c2: CacheModel,
    pattern: Seq<char>,
    case_sensitive: bool,
    max: int,
)
    requires
        c1.entries == c2.entries,
        c1.root == c2.root,
    ensures
        search_total(c1, pattern, case_sensitive, max) == search_total(
            c2,
            pattern,
            case_sensitive,
            max,
        ),
{
}

/// Growing the scanned prefix by one entry appends that entry's matches.
proof fn lemma_corpus_take_step(
    entries: Seq<EntryModel>,
    root: Seq<char>,
    pattern: Seq<char>,
    case_sensitive: bool,
    max: int,
    i: int,
)
    requires
        0 <= i < entries.len(),
    ensures
        corpus_matches(entries.take(i + 1), root, pattern, case_sensitive, max)
            =~= corpus_matches(entries.take(i), root, pattern, case_sensitive, max)
            + file_matches(entries[i], root, pattern, case_sensitive, max),
    decreases i,
{
    let t1 = entries.take(i + 1);
    let t0 = entries.take(i);
    if i == 0 {
        assert(t1.first() == entries[0]);
        assert(t1.drop_first() =~= Seq::<EntryModel>::empty());
        assert(t0 =~= Seq::<EntryModel>::empty());
        assert(corpus_matches(t1.drop_first(), root, pattern, case_sensitive, max)
            =~= Seq::<MatchModel>::empty());
    } else {
        let d = entries.drop_first();
        lemma_corpus_take_step(d, root, pattern, case_sensitive, max, i - 1);
        assert(t1.first() == entries[0]);
        assert(t1.drop_first() =~= d.take(i));
        assert(t0.first() == entries[0]);
        assert(t0.drop_first() =~= d.take(i - 1));
        assert(d[i - 1] == entries[i]);
        let f0 = file_matches(entries[0], root, pattern, case_sensitive, max);
        let a = corpus_matches(d.take(i - 1), root, pattern, case_sensitive, max);
        let b = file_matches(entries[i], root, pattern, case_sensitive, max);
        assert(f0 + (a + b) =~= (f0 + a) + b);
    }
}

/// The search engine's reply: the capped matches, the reported total, the
/// number of files scanned and the elapsed wall time.
#[derive(Debug)]
pub struct SearchResponse {
    pub matches: Vec<SearchMatch>,
    pub total_matches: usize,
    pub files_searched: usize,
    pub duration_ms: u64,
}

/// Relies on std's `SystemTime`: milliseconds since the Unix epoch, zero
/// when the clock reads before it. Only used to report elapsed wall time.
#[verifier::external_body]
fn unix_millis() -> (r: u64) {
    match std::time::SystemTime::now().duration_since(std::time::UNIX_EPOCH) {
        Ok(d) => d.as_millis() as u64,
        Err(_) => 0,
    }
}

impl MmapCache {
    /// Search every mapped file for `pattern`, in parallel, honouring the
    /// per-file early stop and the global ceiling `max_results`.
    ///
    /// The sole error is a pattern that does not compile. On success the
    /// reply holds the first `max_results` of the concatenated per-file
    /// buffers, the concatenation's full length as `total_matches`, and the
    /// cache size as `files_searched`. Within a file, matches carry
    /// ascending line numbers.
    pub fn search(&self, pattern: &String, case_sensitive: bool, max_results: usize) -> (r:
        Result<SearchResponse, String>)
        ensures
            r is Ok <==> crate::matcher::regex_ok(pattern@, case_sensitive),
            r matches Err(e) ==> e@ == "Invalid regex pattern"@,
            r matches Ok(resp) ==> ({
                let all = corpus_matches(
                    self@.entries,
                    self@.root,
                    pattern@,
                    case_sensitive,
                    max_results as int,
                );
                &&& resp.files_searched == self@.entries.len()
                &&& resp.total_matches == all.len()
                &&& resp.matches@.len() == (if max_results as int <= all.len() {
                    max_results as int
                } else {
                    all.len() as int
                })
                &&& match_models(resp.matches@) == all.take(
                    if max_results as int <= all.len() {
                        max_results as int
                    } else {
                        all.len() as int
                    },
                )
            }),
    {
        let m = match crate::matcher::compile_matcher(pattern.as_str(), case_sensitive) {
            None => {
                return Err(String::from_str("Invalid regex pattern"));
            },
            Some(m) => m,
        };
        let start_ms = unix_millis();
        let per = crate::scan::par_scan(&m, &self.entries, max_results);
        let ghost morig: Seq<EntryModel> = models(self.entries@);
        let ghost pat: Seq<char> = pattern@;
        let ghost maxi: int = max_results as int;
        let mut flat: Vec<SearchMatch> = Vec::new();
        proof {
            assert(morig.take(0) =~= Seq::<EntryModel>::empty());
            assert(match_models(flat@) =~= corpus_matches(
                morig.take(0),
                self.root@,
                pat,
                case_sensitive,
                maxi,
            ));
        }
        let mut i: usize = 0;
        while i < self.entries.len()
            invariant
                0 <= i <= self.entries@.len(),
                morig == models(self.entries@),
                morig.len() == self.entries@.len(),
                per@.len() == self.entries@.len(),
                crate::matcher::matcher_pattern(m) == pat,
                crate::matcher::matcher_case_sensitive(m) == case_sensitive,
                forall|k: int|
                    0 <= k < per@.len() ==> crate::scan::hits_match(
                        (#[trigger] per@[k])@,
                        crate::scan::capped_hits(pat, case_sensitive, morig[k].bytes, maxi),
                    ),
                match_models(flat@) == corpus_matches(
                    morig.take(i as int),
                    self.root@,
                    pat,
                    case_sensitive,
                    maxi,
                ),
            decreases self.entries@.len() - i,
        {
            let ghost e: EntryModel = morig[i as int];
            proof {
                assert(e == self.entries@[i as int]@);
                assert(e.bytes == self.entries@[i as int].mapping@);
            }
            let rp = crate::paths::rel_path(self.entries[i].path.as_str(), self.root.as_str());
            let ghost fm = file_matches(e, self.root@, pat, case_sensitive, maxi);
            let ghost capped = crate::scan::capped_hits(pat, case_sensitive, e.bytes, maxi);
            let mut j: usize = 0;
            proof {
                assert(fm.len() == capped.len());
            }
            while j < per[i].len()
                invariant
                    0 <= i < self.entries@.len(),
                    morig.len() == self.entries@.len(),
                    0 <= j <= capped.len(),
                    per@.len() == self.entries@.len(),
                    per@[i as int]@.len() == capped.len(),
                    crate::scan::hits_match(per@[i as int]@, capped),
                    capped == crate::scan::capped_hits(pat, case_sensitive, e.bytes, maxi),
                    fm == file_matches(e, self.root@, pat, case_sensitive, maxi),
                    fm.len() == capped.len(),
                    rp@ == crate::paths::rel_path_spec(e.path, self.root@),
                    e == morig[i as int],
                    match_models(flat@) == corpus_matches(
                        morig.take(i as int),
                        self.root@,
                        pat,
                        case_sensitive,
                        maxi,
                    ) + fm.take(j as int),
                decreases capped.len() - j,
            {
                let ln = per[i][j].0;
                let content = per[i][j].1.clone();
                let ghost pre_flat = flat@;
                flat.push(SearchMatch { path: rp.clone(), line_number: ln, line: content });
                proof {
                    assert(0 <= j < capped.len());
                    assert(capped[j as int].0 == ln);
                    assert(capped[j as int].1 == per@[i as int]@[j as int].1@);
                    lemma_file_matches_index(e, self.root@, pat, case_sensitive, maxi, j as int);
                    assert(fm[j as int].path == crate::paths::rel_path_spec(e.path, self.root@));
                    assert(fm[j as int].line_number == capped[j as int].0);
                    assert(fm[j as int].line == capped[j as int].1);
                    assert(match_models(flat@) =~= match_models(pre_flat).push(
                        flat@.last()@,
                    ));
                    assert(flat@.last()@ == fm[j as int]);
                    assert(fm.take(j + 1) =~= fm.take(j as int).push(fm[j as int]));
                }
                j = j + 1;
            }
            proof {
                assert(fm.take(j as int) =~= fm);
                lemma_corpus_take_step(morig, self.root@, pat, case_sensitive, maxi, i as int);
            }
            i = i + 1;
        }
        proof {
            assert(morig.take(morig.len() as int) =~= morig);
        }
        let total = flat.len();
        let ghost all = corpus_matches(morig, self.root@, pat, case_sensitive, maxi);
        proof {
            assert(match_models(flat@).len() == flat@.len());
        }
        flat.truncate(max_results);
        proof {
            assert(match_models(flat@) =~= all.take(
                if maxi <= all.len() {
                    maxi
                } else {
                    all.len() as int
                },
            ));
        }
        let end_ms = unix_millis();
        let duration_ms = if end_ms >= start_ms {
            end_ms - start_ms
        } else {
            0
        };
        Ok(
            SearchResponse {
                matches: flat,
                total_matches: total,
                files_searched: self.entries.len(),
                duration_ms,
            },
        )
    }
}


} // verus!
